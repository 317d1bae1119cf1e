//! Duration policy: how a timed effect's remaining duration decreases per
//! unit of game time, and which rest event clears a rest-bound effect.
//!
//! Minute- and hour-scoped durations are converted to round equivalents at
//! attach time using the `seconds_per_round` setting; fractional leftovers
//! truncate toward zero. Rest-bound effects carry no numeric duration and are
//! never affected by round advancement.

use vstd::prelude::*;

verus! {

/// The unit a timed effect's duration is expressed in.
#[derive(Clone, Copy, Debug, PartialEq, Eq, Structural)]
pub enum DurationUnit {
    /// Combat rounds; decremented by one per elapsed round.
    Rounds,
    /// Real-time minutes; converted to rounds at attach time.
    Minutes,
    /// Real-time hours; converted to rounds at attach time.
    Hours,
    /// Until the target rests (a short or a long rest).
    ShortRest,
    /// Until the target finishes a long rest.
    LongRest,
}

/// A narrative time-skip event that clears rest-bound effects.
#[derive(Clone, Copy, Debug, PartialEq, Eq, Structural)]
pub enum RestKind {
    Short,
    Long,
}

/// A rest-bound duration carries no numeric remaining duration and is
/// unaffected by round advancement.
pub open spec fn is_rest_bound(unit: DurationUnit) -> bool {
    unit is ShortRest || unit is LongRest
}

/// Executable test for [`is_rest_bound`].
pub fn unit_is_rest_bound(unit: &DurationUnit) -> (r: bool)
    ensures
        r == is_rest_bound(*unit),
{
    match unit {
        DurationUnit::ShortRest => true,
        DurationUnit::LongRest => true,
        _ => false,
    }
}

/// Which rest event clears an effect of the given unit: a short-rest-bound
/// effect is cleared by either rest, a long-rest-bound effect only by a long
/// rest, and a numeric unit by neither.
pub open spec fn rest_clears(unit: DurationUnit, rest: RestKind) -> bool {
    match unit {
        DurationUnit::ShortRest => true,
        DurationUnit::LongRest => rest is Long,
        _ => false,
    }
}

/// Executable test for [`rest_clears`].
pub fn unit_cleared_by(unit: &DurationUnit, rest: &RestKind) -> (r: bool)
    ensures
        r == rest_clears(*unit, *rest),
{
    match unit {
        DurationUnit::ShortRest => true,
        DurationUnit::LongRest => matches!(rest, RestKind::Long),
        _ => false,
    }
}

/// Round equivalent of a duration: minutes and hours are divided into rounds
/// of `seconds_per_round` seconds, truncating toward zero; rest-bound units
/// have no round equivalent.
pub open spec fn rounds_equivalent(amount: int, unit: DurationUnit, seconds_per_round: int) -> int
    recommends
        seconds_per_round >= 1,
{
    match unit {
        DurationUnit::Rounds => amount,
        DurationUnit::Minutes => amount * 60 / seconds_per_round,
        DurationUnit::Hours => amount * 3600 / seconds_per_round,
        DurationUnit::ShortRest => 0,
        DurationUnit::LongRest => 0,
    }
}

/// Converts a duration to its round equivalent, truncating toward zero.
pub fn convert_to_rounds(amount: u32, unit: &DurationUnit, seconds_per_round: u64) -> (r: u64)
    requires
        seconds_per_round >= 1,
    ensures
        r == rounds_equivalent(amount as int, *unit, seconds_per_round as int),
{
    match unit {
        DurationUnit::Rounds => amount as u64,
        DurationUnit::Minutes => (amount as u64 * 60) / seconds_per_round,
        DurationUnit::Hours => (amount as u64 * 3600) / seconds_per_round,
        DurationUnit::ShortRest => 0,
        DurationUnit::LongRest => 0,
    }
}

} // verus!
