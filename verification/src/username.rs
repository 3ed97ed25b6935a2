//! The name of a user: stored trimmed and in lower case, shown with a
//! capital first letter.

use vstd::prelude::*;
use vstd::string::StringSliceAdditionalSpecFns;
use vstd::utf8::{decode_utf8, encode_utf8, is_char_boundary};

verus! {

/// `s` without the white space at its start and at its end, as `str::trim`
/// gives it.
pub uninterp spec fn trimmed(s: Seq<char>) -> Seq<char>;

/// `s` in lower case, as `str::to_lowercase` gives it.
pub uninterp spec fn lowercased(s: Seq<char>) -> Seq<char>;

/// `s` in upper case, as `str::to_uppercase` gives it.
pub uninterp spec fn uppercased(s: Seq<char>) -> Seq<char>;

/// Calls `str::trim`, which returns the slice without leading and trailing
/// white space.
#[verifier::external_body]
fn trim(s: &str) -> (t: &str)
    ensures
        t@ == trimmed(s@),
{
    s.trim()
}

/// Calls `str::to_lowercase`, which returns the lower case equivalent of the
/// slice as a new string.
#[verifier::external_body]
fn to_lowercase(s: &str) -> (t: String)
    ensures
        t@ == lowercased(s@),
{
    s.to_lowercase()
}

/// Calls `str::to_uppercase`, which returns the upper case equivalent of the
/// slice as a new string.
#[verifier::external_body]
fn to_uppercase(s: &str) -> (t: String)
    ensures
        t@ == uppercased(s@),
{
    s.to_uppercase()
}

/// The name of a user.
#[derive(Debug, Clone, PartialEq, Eq, PartialOrd, Ord, Hash)]
pub struct Username(String);

impl View for Username {
    type V = Seq<char>;

    /// The name as it is stored.
    closed spec fn view(&self) -> Seq<char> {
        self.0@
    }
}

impl Username {
    /// The bytes of the name as it is stored.
    pub open spec fn bytes(&self) -> Seq<u8> {
        encode_utf8(self@)
    }

    /// The length of the stored name in bytes.
    pub open spec fn byte_len(&self) -> usize {
        self.bytes().len() as usize
    }

    /// The name that `username` gives: trimmed, then put in lower case.
    pub fn from_str(username: &str) -> (name: Username)
        ensures
            name@ == lowercased(trimmed(username@)),
    {
        Username(to_lowercase(trim(username)))
    }

    /// The name as it was stored before, taken as it is.
    pub fn stored(name: String) -> (username: Username)
        ensures
            username@ == name@,
    {
        Username(name)
    }

    /// The name as a string slice.
    pub fn as_str(&self) -> (s: &str)
        ensures
            s@ == self@,
    {
        self.0.as_str()
    }

    /// The name can be shown: it has at most one byte, or its first
    /// character is one byte long.
    pub open spec fn shows(&self) -> bool {
        self.byte_len() <= 1 || is_char_boundary(self.bytes(), 1)
    }

    /// Tells whether the name can be shown.
    pub fn can_show(&self) -> (yes: bool)
        ensures
            yes == self.shows(),
    {
        self.0.as_str().len() <= 1 || self.0.as_str().is_char_boundary(1)
    }

    /// The name as it is shown: its first byte in upper case and the rest in
    /// lower case; a name of at most one byte in upper case.
    pub fn display(&self) -> (text: String)
        requires
            self.shows(),
        ensures
            text@ == (if self.byte_len() > 1 {
                uppercased(decode_utf8(self.bytes().subrange(0, 1))) + lowercased(
                    decode_utf8(self.bytes().subrange(1, self.bytes().len() as int)),
                )
            } else {
                uppercased(self@)
            }),
    {
        broadcast use vstd::utf8::encode_utf8_decode_utf8;

        let s = self.0.as_str();
        if s.len() > 1 {
            let (head, tail) = s.split_at(1);
            assert(decode_utf8(head.spec_bytes()) == head@);
            assert(decode_utf8(tail.spec_bytes()) == tail@);
            let mut text = to_uppercase(head);
            let rest = to_lowercase(tail);
            text.append(rest.as_str());
            text
        } else {
            to_uppercase(s)
        }
    }
}

} // verus!
