//! Checks the edit of an expense before it is written.

use vstd::prelude::*;
use crate::add_expense::ExpenseError;
use crate::users::UserSet;

verus! {

/// What a user asks to change on an expense.
#[derive(Debug, Clone)]
pub struct ExpenseData {
    /// The identifier of the expense.
    pub id: i64,
    /// The new amount, if it changes.
    pub amount: Option<u64>,
    /// The new description, if it changes.
    pub description: Option<String>,
    /// The new users; none where the users stay.
    pub users: UserSet,
}

impl ExpenseData {
    /// Decides whether the edit may be written: a new amount must be above
    /// zero.
    pub fn check(&self) -> (verdict: Result<(), ExpenseError>)
        ensures
            verdict == (if self.amount == Some(0u64) {
                Err::<(), ExpenseError>(ExpenseError::AmountNotPositive)
            } else {
                Ok(())
            }),
    {
        match self.amount {
            Some(amount) => {
                if amount == 0 {
                    Err(ExpenseError::AmountNotPositive)
                } else {
                    Ok(())
                }
            },
            None => Ok(()),
        }
    }

    /// Whether the users of the expense are replaced.
    pub fn replaces_users(&self) -> (yes: bool)
        ensures
            yes == (self.users@.len() > 0),
    {
        !self.users.is_empty()
    }
}

} // verus!
