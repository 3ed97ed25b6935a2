//! Checks that a new or edited trip keeps the odometer timeline sound.
//!
//! All trips share one timeline. A trip may start at zero or where another
//! trip ends, and no other trip may reach past its start or start with it.
//! What the trip store holds is asked of it in at most two probes; the
//! decisions between the probes are made here.

use vstd::prelude::*;
use vstd::string::StringExecFns;
use crate::records::Trip;
use crate::text::{decimal, signed_decimal, write_decimal, write_signed_decimal};
use crate::users::UserSet;

verus! {

/// Why a trip is refused.
#[derive(Debug, Clone, Copy, PartialEq, Eq, Structural)]
pub enum ValidationError {
    /// The trip has no user.
    EmptyUserSet,
    /// The start reading is not below the end reading.
    InvalidInterval { start: u64, end: u64 },
    /// No other trip ends at the start reading, which is above zero.
    DisconnectedStart { start: u64 },
    /// Another trip ends after the start reading or starts with it.
    OverlappingInterval { start: u64 },
    /// The edit would leave the neighbouring trip with these readings, the
    /// end not above the start.
    NeighborWouldBecomeInvalid { neighbor: Neighbor, neighbor_start: i64, neighbor_end: i64 },
}

/// The side of a trip on which a neighbouring trip lies.
#[derive(Debug, Clone, Copy, PartialEq, Eq, Structural)]
pub enum Neighbor {
    /// The trip that ends where this one starts.
    Before,
    /// The trip that starts where this one ends.
    After,
}

impl ValidationError {
    /// The explanation of the error, which names the readings that are in
    /// the way.
    pub open spec fn explanation(&self) -> Seq<char> {
        match *self {
            ValidationError::EmptyUserSet => "A trip must have at least one user associated with it"@,
            ValidationError::InvalidInterval { start, end } => "The start "@ + decimal(start as nat)
                + " must be before the end "@ + decimal(end as nat),
            ValidationError::DisconnectedStart { start } => "The start value "@ + decimal(
                start as nat,
            ) + " is not connected to any end value"@,
            ValidationError::OverlappingInterval { start } => "The start value "@ + decimal(
                start as nat,
            ) + " is conflicting with another trip"@,
            ValidationError::NeighborWouldBecomeInvalid {
                neighbor,
                neighbor_start,
                neighbor_end,
            } => (match neighbor {
                Neighbor::Before => "The trip before the current trip would become invalid: start = "@,
                Neighbor::After => "The trip after the current trip would become invalid: start = "@,
            }) + signed_decimal(neighbor_start as int) + " end = "@ + signed_decimal(
                neighbor_end as int,
            ),
        }
    }

    /// Explains the error to the user who handed in the trip.
    pub fn message(&self) -> (text: String)
        ensures
            text@ == self.explanation(),
    {
        match *self {
            ValidationError::EmptyUserSet => String::from_str(
                "A trip must have at least one user associated with it",
            ),
            ValidationError::InvalidInterval { start, end } => {
                let mut text = String::from_str("The start ");
                text.append(write_decimal(start).as_str());
                text.append(" must be before the end ");
                text.append(write_decimal(end).as_str());
                text
            },
            ValidationError::DisconnectedStart { start } => {
                let mut text = String::from_str("The start value ");
                text.append(write_decimal(start).as_str());
                text.append(" is not connected to any end value");
                text
            },
            ValidationError::OverlappingInterval { start } => {
                let mut text = String::from_str("The start value ");
                text.append(write_decimal(start).as_str());
                text.append(" is conflicting with another trip");
                text
            },
            ValidationError::NeighborWouldBecomeInvalid {
                neighbor,
                neighbor_start,
                neighbor_end,
            } => {
                let mut text = match neighbor {
                    Neighbor::Before => String::from_str(
                        "The trip before the current trip would become invalid: start = ",
                    ),
                    Neighbor::After => String::from_str(
                        "The trip after the current trip would become invalid: start = ",
                    ),
                };
                text.append(write_signed_decimal(neighbor_start).as_str());
                text.append(" end = ");
                text.append(write_signed_decimal(neighbor_end).as_str());
                text
            },
        }
    }
}

/// How a trip is to be checked.
#[derive(Debug, Clone)]
pub struct TripValidationConfig {
    /// Accept a start reading that no other trip ends at.
    pub disable_start_check: bool,
    /// The trip that is being edited: it does not count as another trip.
    pub ignore_id: Option<i64>,
    /// Compare the trip with no other trip at all.
    pub ignore_gaps: bool,
}

impl Default for TripValidationConfig {
    /// Every check is made and no trip is left out.
    fn default() -> (config: TripValidationConfig)
        ensures
            !config.disable_start_check,
            config.ignore_id is None,
            !config.ignore_gaps,
    {
        TripValidationConfig { disable_start_check: false, ignore_id: None, ignore_gaps: false }
    }
}

impl TripValidationConfig {
    /// Whether the start reading has to be the end of another trip.
    pub open spec fn checks_start(&self, start: u64) -> bool {
        start > 0 && !self.disable_start_check && !self.ignore_gaps
    }
}

/// The trip with the identifier `id` is another trip than the one that is
/// being edited: every trip is, where none is being edited.
pub open spec fn is_other(ignore_id: Option<i64>, id: i64) -> bool {
    ignore_id != Some(id)
}

/// Tells whether the trip with the identifier `id` is another trip than the
/// one that is being edited.
pub fn counts_as_other(ignore_id: Option<i64>, id: i64) -> (other: bool)
    ensures
        other == is_other(ignore_id, id),
{
    match ignore_id {
        Some(ignored) => ignored != id,
        None => true,
    }
}

/// A question to the trip store about the trips other than `ignore_id`;
/// about all trips, where `ignore_id` names none.
#[derive(Debug, Clone, Copy, PartialEq, Eq, Structural)]
pub enum Probe {
    /// Does another trip end at `reading`?
    EndsAt { reading: u64, ignore_id: Option<i64> },
    /// Does another trip end after `reading`, or start at `reading`?
    Blocks { reading: u64, ignore_id: Option<i64> },
}

impl Probe {
    /// The true answer to the probe on a store that holds `existing`.
    pub open spec fn holds(&self, existing: Seq<Trip>) -> bool {
        match *self {
            Probe::EndsAt { reading, ignore_id } => has_predecessor(existing, reading, ignore_id),
            Probe::Blocks { reading, ignore_id } => has_conflict(existing, reading, ignore_id),
        }
    }

    /// Answers the probe on the trips of `existing`.
    pub fn answer(&self, existing: &Vec<Trip>) -> (found: bool)
        ensures
            found == self.holds(existing@),
    {
        let mut i: usize = 0;
        while i < existing.len()
            invariant
                i <= existing@.len(),
                !self.holds(existing@.take(i as int)),
            decreases existing@.len() - i,
        {
            let other = &existing[i];
            let hit = match *self {
                Probe::EndsAt { reading, ignore_id } => counts_as_other(ignore_id, other.id)
                    && other.end == reading,
                Probe::Blocks { reading, ignore_id } => counts_as_other(ignore_id, other.id) && (
                other.end > reading || other.start == reading),
            };
            if hit {
                return true;
            }
            assert(existing@.take(i + 1).drop_last() =~= existing@.take(i as int));
            i += 1;
        }
        assert(existing@.take(existing@.len() as int) =~= existing@);
        false
    }
}

/// Another trip than `ignore_id` ends at `start`.
pub open spec fn has_predecessor(existing: Seq<Trip>, start: u64, ignore_id: Option<i64>) -> bool {
    exists|i: int|
        0 <= i < existing.len() && is_other(ignore_id, (#[trigger] existing[i]).id)
            && existing[i].end == start
}

/// Another trip than `ignore_id` ends after `start` or starts at `start`.
pub open spec fn has_conflict(existing: Seq<Trip>, start: u64, ignore_id: Option<i64>) -> bool {
    exists|i: int|
        0 <= i < existing.len() && is_other(ignore_id, (#[trigger] existing[i]).id) && (
        existing[i].end > start || existing[i].start == start)
}

/// What is wrong with the trip by itself, whatever the store holds.
pub open spec fn record_error(users: Seq<i64>, start: u64, end: u64) -> Option<ValidationError> {
    if users.len() == 0 {
        Some(ValidationError::EmptyUserSet)
    } else if start >= end {
        Some(ValidationError::InvalidInterval { start, end })
    } else {
        None
    }
}

/// The verdict on `trip` beside the trips of `existing`. The checks are made
/// in this order, and the first that fails gives the error: the trip has a
/// user; its start is below its end; unless the start check is off or gaps
/// are ignored, a start above zero is the end of another trip; unless gaps
/// are ignored, no other trip ends after the start or starts with it.
pub open spec fn validation_outcome(
    existing: Seq<Trip>,
    trip: Trip,
    config: TripValidationConfig,
) -> Result<(), ValidationError> {
    if let Some(error) = record_error(trip.users@, trip.start, trip.end) {
        Err(error)
    } else if config.checks_start(trip.start) && !has_predecessor(
        existing,
        trip.start,
        config.ignore_id,
    ) {
        Err(ValidationError::DisconnectedStart { start: trip.start })
    } else if !config.ignore_gaps && has_conflict(existing, trip.start, config.ignore_id) {
        Err(ValidationError::OverlappingInterval { start: trip.start })
    } else {
        Ok(())
    }
}

/// A trip is accepted if and only if it has a user, its start is below its
/// end and, unless gaps are ignored: its start is zero or the end of another
/// trip, or the start check is off; and every other trip ends at or before
/// its start and does not start with it. The other trips are all trips of
/// the store but the one that `ignore_id` names.
pub proof fn lemma_accepted_iff(existing: Seq<Trip>, trip: Trip, config: TripValidationConfig)
    ensures
        validation_outcome(existing, trip, config) is Ok <==> (trip.users@.len() > 0 && trip.start
            < trip.end && (config.ignore_gaps || ((config.disable_start_check || trip.start == 0
            || exists|i: int|
            0 <= i < existing.len() && is_other(config.ignore_id, (#[trigger] existing[i]).id)
                && existing[i].end == trip.start) && forall|i: int|
            0 <= i < existing.len() && is_other(config.ignore_id, (#[trigger] existing[i]).id)
                ==> existing[i].end <= trip.start && existing[i].start != trip.start))),
{
}

/// The verdict does not depend on the order in which the store holds its
/// trips: two stores that hold the same trips give the same verdict.
pub proof fn lemma_verdict_order_free(
    a: Seq<Trip>,
    b: Seq<Trip>,
    trip: Trip,
    config: TripValidationConfig,
)
    requires
        forall|i: int| 0 <= i < a.len() ==> b.contains(#[trigger] a[i]),
        forall|i: int| 0 <= i < b.len() ==> a.contains(#[trigger] b[i]),
    ensures
        validation_outcome(a, trip, config) == validation_outcome(b, trip, config),
{
    let ignore_id = config.ignore_id;
    let start = trip.start;
    assert(has_predecessor(a, start, ignore_id) == has_predecessor(b, start, ignore_id)) by {
        if has_predecessor(a, start, ignore_id) {
            let i = choose|i: int|
                0 <= i < a.len() && is_other(ignore_id, (#[trigger] a[i]).id) && a[i].end == start;
            assert(b.contains(a[i]));
            let j = choose|j: int| 0 <= j < b.len() && b[j] == a[i];
            assert(is_other(ignore_id, b[j].id) && b[j].end == start);
        }
        if has_predecessor(b, start, ignore_id) {
            let i = choose|i: int|
                0 <= i < b.len() && is_other(ignore_id, (#[trigger] b[i]).id) && b[i].end == start;
            assert(a.contains(b[i]));
            let j = choose|j: int| 0 <= j < a.len() && a[j] == b[i];
            assert(is_other(ignore_id, a[j].id) && a[j].end == start);
        }
    }
    assert(has_conflict(a, start, ignore_id) == has_conflict(b, start, ignore_id)) by {
        if has_conflict(a, start, ignore_id) {
            let i = choose|i: int|
                0 <= i < a.len() && is_other(ignore_id, (#[trigger] a[i]).id) && (a[i].end > start
                    || a[i].start == start);
            assert(b.contains(a[i]));
            let j = choose|j: int| 0 <= j < b.len() && b[j] == a[i];
            assert(is_other(ignore_id, b[j].id) && (b[j].end > start || b[j].start == start));
        }
        if has_conflict(b, start, ignore_id) {
            let i = choose|i: int|
                0 <= i < b.len() && is_other(ignore_id, (#[trigger] b[i]).id) && (b[i].end > start
                    || b[i].start == start);
            assert(a.contains(b[i]));
            let j = choose|j: int| 0 <= j < a.len() && a[j] == b[i];
            assert(is_other(ignore_id, a[j].id) && (a[j].end > start || a[j].start == start));
        }
    }
}

/// The trips form a chain from zero: the first starts at zero, each starts
/// below its end, and each but the first starts where the one before ends.
pub open spec fn is_chain(trips: Seq<Trip>) -> bool {
    &&& trips.len() > 0 ==> trips[0].start == 0
    &&& forall|i: int| 0 <= i < trips.len() ==> (#[trigger] trips[i]).start < trips[i].end
    &&& forall|i: int| 0 <= i < trips.len() - 1 ==> (#[trigger] trips[i]).end == trips[i + 1].start
}

/// The reading at which a chain ends: zero for the empty chain.
pub open spec fn chain_end(trips: Seq<Trip>) -> u64 {
    if trips.len() == 0 {
        0
    } else {
        trips.last().end
    }
}

/// In a chain, no trip ends after the last one, and no trip starts where
/// the chain ends.
proof fn lemma_chain_ends_rise(trips: Seq<Trip>, i: int)
    requires
        is_chain(trips),
        0 <= i < trips.len(),
    ensures
        trips[i].end <= chain_end(trips),
        trips[i].start < chain_end(trips),
    decreases trips.len() - i,
{
    if i < trips.len() - 1 {
        lemma_chain_ends_rise(trips, i + 1);
        assert(trips[i].end == trips[i + 1].start);
    }
}

/// A trip that is accepted for insertion, with the start check made, beside
/// a chain of trips starts where the chain ends, at zero where the store is
/// empty. So the chain with the trip at its end is a chain again.
pub proof fn lemma_accepted_trip_extends_chain(
    existing: Seq<Trip>,
    trip: Trip,
    config: TripValidationConfig,
)
    requires
        is_chain(existing),
        !config.disable_start_check,
        !config.ignore_gaps,
        config.ignore_id is None,
        validation_outcome(existing, trip, config) is Ok,
    ensures
        trip.start == chain_end(existing),
        trip.start < trip.end,
        is_chain(existing.push(trip)),
{
    let after = existing.push(trip);
    let n = existing.len() as int;
    if n == 0 {
        if trip.start > 0 {
            assert(!has_predecessor(existing, trip.start, config.ignore_id));
        }
    } else {
        assert(is_other(config.ignore_id, existing[0].id));
        assert(existing[0].start != trip.start) by {
            if existing[0].start == trip.start {
                assert(has_conflict(existing, trip.start, config.ignore_id));
            }
        }
        assert(trip.start > 0);
        assert(has_predecessor(existing, trip.start, config.ignore_id));
        let j = choose|j: int|
            0 <= j < existing.len() && is_other(config.ignore_id, (#[trigger] existing[j]).id)
                && existing[j].end == trip.start;
        lemma_chain_ends_rise(existing, j);
        assert(is_other(config.ignore_id, existing[n - 1].id));
        assert(existing[n - 1].end <= trip.start) by {
            if existing[n - 1].end > trip.start {
                assert(has_conflict(existing, trip.start, config.ignore_id));
            }
        }
    }
    assert forall|i: int| 0 <= i < after.len() implies (#[trigger] after[i]).start < after[i].end by {
        if i < n {
            assert(existing[i].start < existing[i].end);
        }
    }
    assert forall|i: int| 0 <= i < after.len() - 1 implies (#[trigger] after[i]).end == after[i
        + 1].start by {
        if i < n - 1 {
            assert(existing[i].end == existing[i + 1].start);
        }
    }
}

/// Where gaps are ignored, as they are for the edit of a trip, the verdict
/// rests on the trip alone: it needs a user and a start below its end.
pub proof fn lemma_verdict_of_edit(existing: Seq<Trip>, trip: Trip, config: TripValidationConfig)
    requires
        config.ignore_gaps,
    ensures
        validation_outcome(existing, trip, config) == (match record_error(
            trip.users@,
            trip.start,
            trip.end,
        ) {
            Some(error) => Err::<(), ValidationError>(error),
            None => Ok(()),
        }),
{
}

/// The timeline is sound: every trip starts below its end, no two trips
/// overlap, and every trip starts at zero or where another trip ends.
pub open spec fn timeline_sound(trips: Seq<Trip>) -> bool {
    &&& forall|i: int| 0 <= i < trips.len() ==> (#[trigger] trips[i]).start < trips[i].end
    &&& forall|i: int, j: int|
        0 <= i < trips.len() && 0 <= j < trips.len() && i != j ==> (#[trigger] trips[i]).end <= (
        #[trigger] trips[j]).start || trips[j].end <= trips[i].start
    &&& forall|i: int|
        0 <= i < trips.len() ==> (#[trigger] trips[i]).start == 0 || exists|j: int|
            0 <= j < trips.len() && (#[trigger] trips[j]).end == trips[i].start
}

/// A trip that is accepted with every check made keeps a sound timeline
/// sound when it is written beside the trips that were there: it overlaps
/// none of them and leaves no gap before its start.
pub proof fn lemma_accepted_trip_keeps_timeline(
    existing: Seq<Trip>,
    trip: Trip,
    config: TripValidationConfig,
)
    requires
        timeline_sound(existing),
        !config.disable_start_check,
        !config.ignore_gaps,
        config.ignore_id is None,
        validation_outcome(existing, trip, config) is Ok,
    ensures
        timeline_sound(existing.push(trip)),
{
    let after = existing.push(trip);
    let n = existing.len() as int;
    assert(trip.start < trip.end);
    assert forall|i: int| 0 <= i < n implies (#[trigger] existing[i]).end <= trip.start by {
        if existing[i].end > trip.start {
            assert(has_conflict(existing, trip.start, config.ignore_id));
        }
    }
    assert forall|i: int| 0 <= i < after.len() implies (#[trigger] after[i]).start < after[i].end by {
        if i < n {
            assert(existing[i].start < existing[i].end);
        }
    }
    assert forall|i: int, j: int|
        0 <= i < after.len() && 0 <= j < after.len() && i != j implies (#[trigger] after[i]).end <= (
    #[trigger] after[j]).start || after[j].end <= after[i].start by {
        if i < n && j < n {
            assert(existing[i].end <= existing[j].start || existing[j].end <= existing[i].start);
        } else if i < n {
            assert(existing[i].end <= trip.start);
        } else {
            assert(existing[j].end <= trip.start);
        }
    }
    assert forall|i: int| 0 <= i < after.len() implies (#[trigger] after[i]).start == 0 || exists|
        j: int,
    |
        0 <= j < after.len() && (#[trigger] after[j]).end == after[i].start by {
        if i < n {
            if existing[i].start != 0 {
                let j = choose|j: int|
                    0 <= j < existing.len() && (#[trigger] existing[j]).end == existing[i].start;
                assert(after[j].end == after[i].start);
            }
        } else if trip.start != 0 {
            assert(has_predecessor(existing, trip.start, config.ignore_id));
            let j = choose|j: int|
                0 <= j < existing.len() && is_other(config.ignore_id, (#[trigger] existing[j]).id)
                    && existing[j].end == trip.start;
            assert(after[j].end == after[i].start);
        }
    }
}

/// Where a validation stands: it needs an answer from the trip store, or it
/// has come to its verdict.
#[derive(Debug, Clone, Copy, PartialEq, Eq, Structural)]
pub enum ValidationStep {
    /// The store is to answer this probe.
    Ask(Probe),
    /// The trip is accepted.
    Accept,
    /// The trip is refused.
    Refuse(ValidationError),
}

/// The step that follows once the start of the trip is known to be sound.
pub open spec fn overlap_step(start: u64, config: TripValidationConfig) -> ValidationStep {
    if config.ignore_gaps {
        ValidationStep::Accept
    } else {
        ValidationStep::Ask(Probe::Blocks { reading: start, ignore_id: config.ignore_id })
    }
}

/// The first step of a validation.
pub open spec fn first_step(trip: Trip, config: TripValidationConfig) -> ValidationStep {
    if let Some(error) = record_error(trip.users@, trip.start, trip.end) {
        ValidationStep::Refuse(error)
    } else if config.checks_start(trip.start) {
        ValidationStep::Ask(Probe::EndsAt { reading: trip.start, ignore_id: config.ignore_id })
    } else {
        overlap_step(trip.start, config)
    }
}

/// The step that follows the answer `found` to the probe `asked`.
pub open spec fn next_step(
    config: TripValidationConfig,
    asked: Probe,
    found: bool,
) -> ValidationStep {
    match asked {
        Probe::EndsAt { reading, ignore_id } => if found {
            overlap_step(reading, config)
        } else {
            ValidationStep::Refuse(ValidationError::DisconnectedStart { start: reading })
        },
        Probe::Blocks { reading, ignore_id } => if found {
            ValidationStep::Refuse(ValidationError::OverlappingInterval { start: reading })
        } else {
            ValidationStep::Accept
        },
    }
}

fn after_start(start: u64, config: &TripValidationConfig) -> (step: ValidationStep)
    ensures
        step == overlap_step(start, *config),
{
    if config.ignore_gaps {
        ValidationStep::Accept
    } else {
        ValidationStep::Ask(Probe::Blocks { reading: start, ignore_id: config.ignore_id })
    }
}

/// Starts the validation of `trip`: checks the trip by itself and says what
/// to ask the trip store first, if anything.
pub fn begin_validation(trip: &Trip, config: &TripValidationConfig) -> (step: ValidationStep)
    ensures
        step == first_step(*trip, *config),
{
    if trip.users.is_empty() {
        ValidationStep::Refuse(ValidationError::EmptyUserSet)
    } else if trip.start >= trip.end {
        ValidationStep::Refuse(ValidationError::InvalidInterval { start: trip.start, end: trip.end })
    } else if trip.start > 0 && !config.disable_start_check && !config.ignore_gaps {
        ValidationStep::Ask(
            Probe::EndsAt { reading: trip.start, ignore_id: config.ignore_id },
        )
    } else {
        after_start(trip.start, config)
    }
}

/// Goes on with a validation after the trip store answered `asked` with
/// `found`.
pub fn continue_validation(config: &TripValidationConfig, asked: Probe, found: bool) -> (step:
    ValidationStep)
    ensures
        step == next_step(*config, asked, found),
{
    match asked {
        Probe::EndsAt { reading, ignore_id } => {
            if found {
                after_start(reading, config)
            } else {
                ValidationStep::Refuse(ValidationError::DisconnectedStart { start: reading })
            }
        },
        Probe::Blocks { reading, ignore_id } => {
            if found {
                ValidationStep::Refuse(ValidationError::OverlappingInterval { start: reading })
            } else {
                ValidationStep::Accept
            }
        },
    }
}

/// Decides whether `trip` may be written beside the trips of `existing`.
/// Nothing is changed: the same timeline and trip get the same verdict every
/// time.
pub fn validate_trip(existing: &Vec<Trip>, trip: &Trip, config: &TripValidationConfig) -> (verdict:
    Result<(), ValidationError>)
    ensures
        verdict == validation_outcome(existing@, *trip, *config),
{
    match begin_validation(trip, config) {
        ValidationStep::Accept => Ok(()),
        ValidationStep::Refuse(error) => Err(error),
        ValidationStep::Ask(first) => {
            let found = first.answer(existing);
            match continue_validation(config, first, found) {
                ValidationStep::Accept => Ok(()),
        ValidationStep::Refuse(error) => Err(error),
                ValidationStep::Ask(second) => {
                    let blocked = second.answer(existing);
                    match continue_validation(config, second, blocked) {
                        ValidationStep::Accept => Ok(()),
        ValidationStep::Refuse(error) => Err(error),
                        ValidationStep::Ask(_) => Ok(()),
                    }
                },
            }
        },
    }
}

/// A trip as a user hands it in.
#[derive(Debug, Clone)]
pub struct TripData {
    /// When the entry was made, where the user says so.
    pub created_at: Option<i64>,
    /// The odometer reading at the start of the trip.
    pub start: i64,
    /// The odometer reading at the end of the trip.
    pub end: i64,
    /// The reason for the trip.
    pub description: Option<String>,
    /// The users who pay for the trip.
    pub users: UserSet,
    /// Accept a start reading that no other trip ends at.
    pub disable_start_check: bool,
}

impl TripData {
    /// The trip that is to be checked before it is written: the readings
    /// taken as unsigned numbers, `now` as the time of entry unless the user
    /// gave one, no identifier and no price yet.
    pub fn candidate(self, now: i64) -> (trip: Trip)
        ensures
            trip.id == 0,
            trip.created_at == match self.created_at {
                Some(at) => at,
                None => now,
            },
            trip.start == self.start as u64,
            trip.end == self.end as u64,
            trip.description == self.description,
            trip.users == self.users,
            trip.price == 0,
    {
        Trip {
            id: 0,
            created_at: match self.created_at {
                Some(at) => at,
                None => now,
            },
            start: #[verifier::truncate]
            (self.start as u64),
            end: #[verifier::truncate]
            (self.end as u64),
            description: self.description,
            users: self.users,
            price: 0,
        }
    }

    /// How the trip is to be checked: against every other trip, and with the
    /// start check unless the user switched it off.
    pub fn validation_config(&self) -> (config: TripValidationConfig)
        ensures
            config.disable_start_check == self.disable_start_check,
            config.ignore_id is None,
            !config.ignore_gaps,
    {
        TripValidationConfig {
            disable_start_check: self.disable_start_check,
            ignore_id: None,
            ignore_gaps: false,
        }
    }
}

} // verus!
