//! Checks a new expense before it is written.

use vstd::prelude::*;
use vstd::string::StringExecFns;
use crate::users::UserSet;

verus! {

/// Why an expense is refused.
#[derive(Debug, Clone, Copy, PartialEq, Eq, Structural)]
pub enum ExpenseError {
    /// The expense names no user who paid it.
    EmptyUserSet,
    /// The amount is zero.
    AmountNotPositive,
}

impl ExpenseError {
    /// The explanation of the error.
    pub open spec fn explanation(&self) -> Seq<char> {
        match *self {
            ExpenseError::EmptyUserSet => "No users provided"@,
            ExpenseError::AmountNotPositive => "The amount must be greater than 0"@,
        }
    }

    /// Explains the error to the user who handed in the expense.
    pub fn message(&self) -> (text: String)
        ensures
            text@ == self.explanation(),
    {
        match *self {
            ExpenseError::EmptyUserSet => String::from_str("No users provided"),
            ExpenseError::AmountNotPositive => String::from_str(
                "The amount must be greater than 0",
            ),
        }
    }
}

/// An expense as a user hands it in.
#[derive(Debug, Clone)]
pub struct ExpenseData {
    /// The amount in currency subunits.
    pub amount: u64,
    /// What the money was spent on.
    pub description: Option<String>,
    /// The users who paid the expense in advance.
    pub users: UserSet,
}

impl ExpenseData {
    /// The verdict on the expense: it must name a user, and then its amount
    /// must be above zero.
    pub open spec fn verdict(&self) -> Result<(), ExpenseError> {
        if self.users@.len() == 0 {
            Err(ExpenseError::EmptyUserSet)
        } else if self.amount == 0 {
            Err(ExpenseError::AmountNotPositive)
        } else {
            Ok(())
        }
    }

    /// Decides whether the expense may be written.
    pub fn check(&self) -> (verdict: Result<(), ExpenseError>)
        ensures
            verdict == self.verdict(),
    {
        if self.users.is_empty() {
            Err(ExpenseError::EmptyUserSet)
        } else if self.amount == 0 {
            Err(ExpenseError::AmountNotPositive)
        } else {
            Ok(())
        }
    }
}

} // verus!
