//! The presenter: the exact text the client shows for a numbered match
//! line, for a flow reading, and on leaving.

use vstd::prelude::*;

use crate::data::FlowReading;
use crate::numbers::{spec_nat_digits, u64_text};

verus! {

/// One numbered line of the match list, counted from one.
pub fn match_line(index: u64, name: &str) -> (out: String)
    ensures
        out@ == "["@ + spec_nat_digits(index as int) + "] "@ + name@,
{
    let mut out = String::from_str("[");
    out.append(u64_text(index).as_str());
    out.append("] ");
    out.append(name);
    out
}

/// The display block for the latest reading of a chosen station: its name,
/// the reading's date, and the flow value in cubic metres per second.
pub fn present_reading(name: &str, reading: &FlowReading) -> (out: String)
    ensures
        out@ == "Displaying Data:\n\nStation Name: "@ + name@ + " \u{1f6a7}\nDate: "@
            + reading.date@ + " \u{1f4c5}\nRiver Flow: "@ + reading.value@
            + " cubic metres per second \u{1f30a}\n"@,
{
    let mut out = String::from_str("Displaying Data:\n\nStation Name: ");
    out.append(name);
    out.append(" \u{1f6a7}\nDate: ");
    out.append(reading.date.as_str());
    out.append(" \u{1f4c5}\nRiver Flow: ");
    out.append(reading.value.as_str());
    out.append(" cubic metres per second \u{1f30a}\n");
    out
}

/// The farewell line printed on termination.
pub fn farewell_line() -> (out: String)
    ensures
        out@ == "Have fun on the river! \u{1f919}"@,
{
    String::from_str("Have fun on the river! \u{1f919}")
}

} // verus!
