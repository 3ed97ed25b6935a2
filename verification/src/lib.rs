//! Settlement and timeline validation for a shared vehicle logbook.
//!
//! Users record odometer based trips and shared expenses. This library checks
//! that a trip keeps the odometer timeline free of gaps and overlaps, splits
//! distances and amounts among the users of a record, folds a period into one
//! signed balance per user and turns the balances into pairwise payments.
//! What a function returns is stated in its contract. Verus proves the
//! contracts, all but those of the few functions that only call `std` or
//! `password_auth`: these are marked, and say what they take for granted.

pub mod add_expense;
pub mod add_trip;
pub mod auth;
pub mod balances;
pub mod division;
pub mod listing;
pub mod records;
pub mod settlement;
pub mod summary;
pub mod text;
pub mod update_expense;
pub mod update_trip;
pub mod username;
pub mod users;
