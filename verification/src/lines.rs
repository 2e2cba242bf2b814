//! How measurements are written on a line.
//!
//! The numbers come as text, already rounded to the precision their error
//! justifies and in the unit that suits them. What is decided here is what
//! stands around them.

use crate::ladder;
use crate::layout;
use crate::sampling;
use crate::text;
use vstd::prelude::*;

verus! {

/// A measurement with its error in the same unit, or with a note on how few
/// samples there were where it has none.
pub open spec fn measurement(
    value: Seq<char>,
    error: Option<Seq<char>>,
    samples: nat,
    marked: Seq<char>,
) -> Seq<char> {
    layout::right(value, 11) + match error {
        Some(e) => " ± "@ + e,
        None => " (± unknown, only "@ + text::decimal(samples) + " sample"@ + if samples == 1 {
            ""@
        } else {
            "s"@
        } + ")"@,
    } + marked
}

/// Write a measurement.
///
/// There is deliberately no count of iterations or samples beside an error:
/// the error states the precision outright, and the counts would be noise on
/// a line meant to be scanned in a column.
pub fn measurement_line(
    value: &str,
    error: Option<&str>,
    samples: usize,
    hit_limit: bool,
    untrustworthy: bool,
) -> (out: String)
    ensures
        out@ == measurement(
            value@,
            text::maybe(error),
            samples as nat,
            sampling::mark(hit_limit, untrustworthy),
        ),
{
    let mut out = String::new();
    layout::append_right(&mut out, value, 11);
    match error {
        Some(e) => {
            out.append(" ± ");
            out.append(e);
        },
        None => {
            out.append(" (± unknown, only ");
            text::append_number(&mut out, samples as u64);
            out.append(" sample");
            if samples == 1 {
                out.append("");
            } else {
                out.append("s");
            }
            out.append(")");
        },
    }
    out.append(sampling::limit_mark(hit_limit, untrustworthy));
    assert(out@ =~= measurement(
        value@,
        text::maybe(error),
        samples as nat,
        sampling::mark(hit_limit, untrustworthy),
    ));
    out
}

/// A difference that counts as a change, in percent with its error.
pub fn changed_line(percent: &str, error: &str, hit_limit: bool, untrustworthy: bool) -> (
    out: String)
    ensures
        out@ == percent@ + " ± "@ + error@ + sampling::mark(hit_limit, untrustworthy),
{
    let mut out = percent.to_owned();
    out.append(" ± ");
    out.append(error);
    out.append(sampling::limit_mark(hit_limit, untrustworthy));
    out
}

/// A difference that does not count as a change, with the smallest one that
/// would have, where that is known.
///
/// A run cut off by its budget is marked, so that it cannot be mistaken for a
/// clean "no change".
pub fn unchanged_line(detectable: Option<&str>, hit_limit: bool, untrustworthy: bool) -> (
    out: String)
    ensures
        out@ == match detectable {
            Some(d) => "(unchanged, would detect "@ + d@ + ")"@,
            None => "(unchanged)"@,
        } + sampling::mark(hit_limit, untrustworthy),
{
    let mut out = match detectable {
        Some(d) => {
            let mut s = "(unchanged, would detect ".to_owned();
            s.append(d);
            s.append(")");
            s
        },
        None => "(unchanged)".to_owned(),
    };
    out.append(sampling::limit_mark(hit_limit, untrustworthy));
    out
}

/// Why a scaling law has no error.
#[derive(Debug, Clone, Copy, PartialEq, Eq, Structural)]
pub enum NoError {
    /// No law was identified, which more samples of the same shape would not
    /// mend.
    NoLaw,
    /// The coefficient came out as exactly zero.
    ZeroCoefficient,
}

/// A scaling law with its error in the same unit, or with the reason it has
/// none.
pub open spec fn law(
    value: Seq<char>,
    unit: Seq<char>,
    power: nat,
    error: Result<Seq<char>, NoError>,
    samples: nat,
    hit_limit: bool,
    goodness: Seq<char>,
) -> Seq<char> {
    let shown = match error {
        Ok(e) => layout::right(
            "("@ + value + " ± "@ + e + ")"@ + unit + ladder::suffix(power),
            22,
        ),
        Err(why) => layout::right(value, 8) + unit + ladder::suffix(power) + " (± unknown, "@
            + match why {
            NoError::NoLaw => "no scaling law identified"@,
            NoError::ZeroCoefficient => "the fitted coefficient is zero"@,
        } + " after "@ + text::decimal(samples) + " samples)"@,
    };
    shown + sampling::mark(hit_limit, false) + " (R²="@ + goodness + ")"@
}

/// An error, or why there is none.
pub open spec fn error_view(error: Result<&str, NoError>) -> Result<Seq<char>, NoError> {
    match error {
        Ok(e) => Ok(e@),
        Err(why) => Err(why),
    }
}

/// Write a scaling law: its constant, what that is measured per, and how well
/// the shape fits.
///
/// How well it fits is shown, unlike on a measurement, because no error on
/// the constant says whether the right shape was found.
pub fn law_line(
    value: &str,
    unit: &str,
    power: usize,
    error: Result<&str, NoError>,
    samples: usize,
    hit_limit: bool,
    goodness: &str,
) -> (out: String)
    ensures
        out@ == law(
            value@,
            unit@,
            power as nat,
            error_view(error),
            samples as nat,
            hit_limit,
            goodness@,
        ),
{
    let mut out = String::new();
    let suffix = ladder::scale_suffix(power);
    match error {
        Ok(e) => {
            let mut shown = "(".to_owned();
            shown.append(value);
            shown.append(" ± ");
            shown.append(e);
            shown.append(")");
            shown.append(unit);
            shown.append(suffix.as_str());
            layout::append_right(&mut out, shown.as_str(), 22);
        },
        Err(why) => {
            layout::append_right(&mut out, value, 8);
            out.append(unit);
            out.append(suffix.as_str());
            out.append(" (± unknown, ");
            match why {
                NoError::NoLaw => {
                    out.append("no scaling law identified");
                },
                NoError::ZeroCoefficient => {
                    out.append("the fitted coefficient is zero");
                },
            }
            out.append(" after ");
            text::append_number(&mut out, samples as u64);
            out.append(" samples)");
        },
    }
    out.append(sampling::limit_mark(hit_limit, false));
    out.append(" (R²=");
    out.append(goodness);
    out.append(")");
    assert(out@ =~= law(
        value@,
        unit@,
        power as nat,
        error_view(error),
        samples as nat,
        hit_limit,
        goodness@,
    ));
    out
}

/// Write a scaling law without statistics: its constant, and what that is
/// measured per.
pub fn bare_law_line(value: &str, power: usize) -> (out: String)
    ensures
        out@ == layout::right(value@, 8) + ladder::suffix(power as nat),
{
    let mut out = String::new();
    layout::append_right(&mut out, value, 8);
    out.append(ladder::scale_suffix(power).as_str());
    assert(out@ =~= layout::right(value@, 8) + ladder::suffix(power as nat));
    out
}

} // verus!
