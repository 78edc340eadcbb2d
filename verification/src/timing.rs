//! How the time that a run took is reported: in microseconds below a
//! millisecond, in milliseconds below a second, in seconds from there on.

use crate::number::{decimal, decimal_string};
use vstd::prelude::*;

verus! {

/// The unit in which a duration is reported.
#[derive(Clone, Copy, Debug, PartialEq, Eq, Structural)]
pub enum DurationUnit {
    /// Whole microseconds.
    Micros,
    /// Milliseconds with a fraction.
    Millis,
    /// Seconds with a fraction.
    Seconds,
}

/// The unit for a duration of `micros` microseconds.
pub open spec fn unit_of(micros: u128) -> DurationUnit {
    if micros >= 1_000_000 {
        DurationUnit::Seconds
    } else if micros >= 1_000 {
        DurationUnit::Millis
    } else {
        DurationUnit::Micros
    }
}

/// The text of a duration in whole microseconds.
pub open spec fn micros_text(micros: u64) -> Seq<char> {
    decimal(micros as nat) + "μs"@
}

/// The unit in which a duration of `micros` microseconds is reported.
pub fn duration_unit(micros: u128) -> (unit: DurationUnit)
    ensures
        unit == unit_of(micros),
{
    if micros >= 1_000_000 {
        DurationUnit::Seconds
    } else if micros >= 1_000 {
        DurationUnit::Millis
    } else {
        DurationUnit::Micros
    }
}

/// A duration in whole microseconds as text.
pub fn format_micros(micros: u64) -> (text: String)
    ensures
        text@ == micros_text(micros),
{
    let mut text = decimal_string(micros);
    text.append("μs");
    text
}

} // verus!
