//! The failures that the estimator reports to its caller.

use vstd::prelude::*;
use vstd::string::*;

verus! {

/// Which of the four conditions on a resolved range `[a, b)` over a register
/// of `n` positions do not hold.
#[derive(Clone, Copy, Debug, PartialEq, Eq, Structural)]
pub struct RangeViolations {
    /// `b > a` fails.
    pub empty_or_reversed: bool,
    /// `a >= -n` fails.
    pub start_below_register: bool,
    /// `b <= n` fails.
    pub end_beyond_register: bool,
    /// `b - a <= n` fails.
    pub wider_than_register: bool,
}

/// Appends one more entry to a `;`-separated listing.
pub open spec fn listing_with(listing: Seq<char>, entry: Seq<char>) -> Seq<char> {
    if listing.len() == 0 {
        entry
    } else {
        listing + ";"@ + entry
    }
}

fn extend_listing(listing: &mut String, entry: &str)
    ensures
        final(listing)@ == listing_with(old(listing)@, entry@),
{
    if !listing.as_str().is_empty() {
        listing.append(";");
    }
    listing.append(entry);
}

impl RangeViolations {
    /// True when at least one condition is violated.
    pub open spec fn any(self) -> bool {
        self.empty_or_reversed || self.start_below_register || self.end_beyond_register
            || self.wider_than_register
    }

    /// Executable form of [`Self::any`].
    pub fn is_any(&self) -> (b: bool)
        ensures
            b == self.any(),
    {
        self.empty_or_reversed || self.start_below_register || self.end_beyond_register
            || self.wider_than_register
    }

    /// The violated conditions, each written out, in the order of the fields
    /// and separated by `;`.
    pub open spec fn listing(self) -> Seq<char> {
        let l0 = Seq::<char>::empty();
        let l1 = if self.empty_or_reversed {
            listing_with(l0, " b > a"@)
        } else {
            l0
        };
        let l2 = if self.start_below_register {
            listing_with(l1, " a >= -allsystemSize"@)
        } else {
            l1
        };
        let l3 = if self.end_beyond_register {
            listing_with(l2, " b <= allsystemSize"@)
        } else {
            l2
        };
        if self.wider_than_register {
            listing_with(l3, " b-a <= allsystemSize"@)
        } else {
            l3
        }
    }

    /// Writes out every violated condition, none of the others.
    pub fn describe(&self) -> (text: String)
        ensures
            text@ == self.listing(),
    {
        let mut text = String::new();
        if self.empty_or_reversed {
            extend_listing(&mut text, " b > a");
        }
        if self.start_below_register {
            extend_listing(&mut text, " a >= -allsystemSize");
        }
        if self.end_beyond_register {
            extend_listing(&mut text, " b <= allsystemSize");
        }
        if self.wider_than_register {
            extend_listing(&mut text, " b-a <= allsystemSize");
        }
        text
    }
}

/// Why a request was refused. Every failure ends the call: nothing is
/// computed for any part of the request.
#[derive(Clone, Copy, Debug, PartialEq, Eq, Structural)]
pub enum EstimatorError {
    /// A degree given as a single count is negative.
    InvalidArgument,
    /// A degree count exceeds the register size, or a slice bound lies
    /// outside `[-L, L]` for a bitstring of `L` characters.
    OutOfRange,
    /// The resolved range breaks at least one of its four conditions.
    Configuration(RangeViolations),
    /// Shot totals, batch lengths or bitstring lengths that have to agree
    /// do not.
    Consistency,
}

impl EstimatorError {
    /// The text of [`Self::message`].
    pub open spec fn message_text(self) -> Seq<char> {
        match self {
            EstimatorError::InvalidArgument =>
                "The number of qubits of subsystem A has to be a natural number."@,
            EstimatorError::OutOfRange => "The requested qubits or bits are out of range."@,
            EstimatorError::Configuration(violations) =>
                "Invalid bitstring range. Available range [a, b) should be"@
                    + violations.listing(),
            EstimatorError::Consistency =>
                "The shots or the lengths of the given counts do not match."@,
        }
    }

    /// A message for the caller. For a configuration failure it lists every
    /// violated condition.
    pub fn message(&self) -> (text: String)
        ensures
            text@ == self.message_text(),
    {
        match self {
            EstimatorError::InvalidArgument => String::from_str(
                "The number of qubits of subsystem A has to be a natural number.",
            ),
            EstimatorError::OutOfRange => String::from_str(
                "The requested qubits or bits are out of range.",
            ),
            EstimatorError::Configuration(violations) => {
                let mut text = String::from_str(
                    "Invalid bitstring range. Available range [a, b) should be",
                );
                let listing = violations.describe();
                text.append(listing.as_str());
                text
            },
            EstimatorError::Consistency => String::from_str(
                "The shots or the lengths of the given counts do not match.",
            ),
        }
    }
}

} // verus!
