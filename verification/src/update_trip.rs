//! Plans the edit of a trip.
//!
//! Moving the start or the end of a trip moves the boundary of the trip next
//! to it as well, so that the timeline stays without gaps: the trip before
//! ends where the edited trip now starts, the trip after starts where it now
//! ends. The edit is refused as a whole where a neighbour or the trip itself
//! would be left with an end not above its start.

use vstd::prelude::*;
use crate::add_trip::{record_error, Neighbor, ValidationError};
use crate::records::{Trip, TripEntry};
use crate::users::UserSet;

verus! {

/// What a user asks to change on a trip.
#[derive(Debug, Clone)]
pub struct TripData {
    /// The end reading of the trip before the edit, by which it is found.
    pub original_end: i64,
    /// The new start reading, if it changes.
    pub start: Option<i64>,
    /// The new end reading, if it changes.
    pub end: Option<i64>,
    /// The new description, if it changes.
    pub description: Option<String>,
    /// The new users; none where the users stay.
    pub users: UserSet,
}

/// What is to be written for an edit.
#[derive(Debug, Clone)]
pub struct UpdatePlan {
    /// The trip as it will be.
    pub trip: Trip,
    /// The trip before, with its new end, where that end moves.
    pub before: Option<TripEntry>,
    /// The trip after, with its new start, where that start moves.
    pub after: Option<TripEntry>,
    /// Whether the users of the trip are replaced.
    pub replace_users: bool,
}

impl TripData {
    /// The start reading of `current` after the edit.
    pub open spec fn new_start(&self, current: Trip) -> u64 {
        match self.start {
            Some(start) => start as u64,
            None => current.start,
        }
    }

    /// The end reading of `current` after the edit.
    pub open spec fn new_end(&self, current: Trip) -> u64 {
        match self.end {
            Some(end) => end as u64,
            None => current.end,
        }
    }

    /// The trip `before`, which ended where `current` started, with its end
    /// moved to the new start: only where the start changes and that end is
    /// not there already.
    pub open spec fn moved_before(&self, current: Trip, before: Option<TripEntry>) -> Option<
        TripEntry,
    > {
        match (self.start, before) {
            (Some(_), Some(entry)) => if entry.end != self.new_start(current) as i64 {
                Some(
                    TripEntry {
                        id: entry.id,
                        created_at: entry.created_at,
                        start: entry.start,
                        end: self.new_start(current) as i64,
                        description: entry.description,
                    },
                )
            } else {
                None
            },
            _ => None,
        }
    }

    /// The trip `after`, which started where `current` ended, with its start
    /// moved to the new end: only where the end changes and that start is not
    /// there already.
    pub open spec fn moved_after(&self, current: Trip, after: Option<TripEntry>) -> Option<
        TripEntry,
    > {
        match (self.end, after) {
            (Some(_), Some(entry)) => if entry.start != self.new_end(current) as i64 {
                Some(
                    TripEntry {
                        id: entry.id,
                        created_at: entry.created_at,
                        start: self.new_end(current) as i64,
                        end: entry.end,
                        description: entry.description,
                    },
                )
            } else {
                None
            },
            _ => None,
        }
    }

    /// The trip `current` after the edit.
    pub open spec fn edited(&self, current: Trip) -> Trip {
        Trip {
            id: current.id,
            created_at: current.created_at,
            start: self.new_start(current),
            end: self.new_end(current),
            description: match self.description {
                Some(text) => Some(text),
                None => current.description,
            },
            users: if self.users@.len() > 0 {
                self.users
            } else {
                current.users
            },
            price: current.price,
        }
    }

    /// The verdict on the edit and what to write for it. The trip before is
    /// looked at first, then the trip after, then the edited trip itself,
    /// which must have a user and a start below its end; the first of them
    /// that is unsound gives the error.
    pub open spec fn outcome(
        &self,
        current: Trip,
        before: Option<TripEntry>,
        after: Option<TripEntry>,
    ) -> Result<UpdatePlan, ValidationError> {
        let moved_before = self.moved_before(current, before);
        let moved_after = self.moved_after(current, after);
        let trip = self.edited(current);
        if moved_before is Some && moved_before->0.end <= moved_before->0.start {
            Err(
                ValidationError::NeighborWouldBecomeInvalid {
                    neighbor: Neighbor::Before,
                    neighbor_start: moved_before->0.start,
                    neighbor_end: moved_before->0.end,
                },
            )
        } else if moved_after is Some && moved_after->0.end <= moved_after->0.start {
            Err(
                ValidationError::NeighborWouldBecomeInvalid {
                    neighbor: Neighbor::After,
                    neighbor_start: moved_after->0.start,
                    neighbor_end: moved_after->0.end,
                },
            )
        } else if let Some(error) = record_error(trip.users@, trip.start, trip.end) {
            Err(error)
        } else {
            Ok(
                UpdatePlan {
                    trip,
                    before: moved_before,
                    after: moved_after,
                    replace_users: self.users@.len() > 0,
                },
            )
        }
    }
}

/// Plans the edit `data` of the trip `current`. `before` is the trip that
/// ends where `current` starts and `after` the trip that starts where it
/// ends, each if the trip store holds one. The plan names the edited trip
/// and each neighbour whose boundary moves with it.
pub fn plan_trip_update(
    current: Trip,
    before: Option<TripEntry>,
    after: Option<TripEntry>,
    data: TripData,
) -> (plan: Result<UpdatePlan, ValidationError>)
    ensures
        plan == data.outcome(current, before, after),
{
    let new_start: u64 = match data.start {
        Some(start) => #[verifier::truncate]
        (start as u64),
        None => current.start,
    };
    let new_end: u64 = match data.end {
        Some(end) => #[verifier::truncate]
        (end as u64),
        None => current.end,
    };
    let start_reading: i64 = #[verifier::truncate]
    (new_start as i64);
    let end_reading: i64 = #[verifier::truncate]
    (new_end as i64);
    let moved_before: Option<TripEntry> = match before {
        Some(entry) => {
            if data.start.is_some() && entry.end != start_reading {
                Some(
                    TripEntry {
                        id: entry.id,
                        created_at: entry.created_at,
                        start: entry.start,
                        end: start_reading,
                        description: entry.description,
                    },
                )
            } else {
                None
            }
        },
        None => None,
    };
    if let Some(entry) = &moved_before {
        if entry.end <= entry.start {
            return Err(
                ValidationError::NeighborWouldBecomeInvalid {
                    neighbor: Neighbor::Before,
                    neighbor_start: entry.start,
                    neighbor_end: entry.end,
                },
            );
        }
    }
    let moved_after: Option<TripEntry> = match after {
        Some(entry) => {
            if data.end.is_some() && entry.start != end_reading {
                Some(
                    TripEntry {
                        id: entry.id,
                        created_at: entry.created_at,
                        start: end_reading,
                        end: entry.end,
                        description: entry.description,
                    },
                )
            } else {
                None
            }
        },
        None => None,
    };
    if let Some(entry) = &moved_after {
        if entry.end <= entry.start {
            return Err(
                ValidationError::NeighborWouldBecomeInvalid {
                    neighbor: Neighbor::After,
                    neighbor_start: entry.start,
                    neighbor_end: entry.end,
                },
            );
        }
    }
    let replace_users = !data.users.is_empty();
    let trip = Trip {
        id: current.id,
        created_at: current.created_at,
        start: new_start,
        end: new_end,
        description: match data.description {
            Some(text) => Some(text),
            None => current.description,
        },
        users: if replace_users {
            data.users
        } else {
            current.users
        },
        price: current.price,
    };
    if trip.users.is_empty() {
        Err(ValidationError::EmptyUserSet)
    } else if trip.start >= trip.end {
        Err(ValidationError::InvalidInterval { start: trip.start, end: trip.end })
    } else {
        Ok(UpdatePlan { trip, before: moved_before, after: moved_after, replace_users })
    }
}

} // verus!
