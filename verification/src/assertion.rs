//! Checking that two texts are at an expected distance, and what to say
//! where they are not.

use vstd::prelude::*;
use vstd::string::StringExecFns;
use crate::render::rendered;
use crate::{diff_distance, diff_runs, Changeset};

verus! {

/// The character for a digit below ten.
pub open spec fn digit_char(digit: nat) -> char {
    if digit == 0 {
        '0'
    } else if digit == 1 {
        '1'
    } else if digit == 2 {
        '2'
    } else if digit == 3 {
        '3'
    } else if digit == 4 {
        '4'
    } else if digit == 5 {
        '5'
    } else if digit == 6 {
        '6'
    } else if digit == 7 {
        '7'
    } else if digit == 8 {
        '8'
    } else {
        '9'
    }
}

/// The decimal digits of a natural number, without leading zeros.
pub open spec fn digits(n: nat) -> Seq<char>
    decreases n,
{
    if n < 10 {
        seq![digit_char(n)]
    } else {
        digits(n / 10).push(digit_char(n % 10))
    }
}

/// A whole number in decimal, with a minus sign where it is negative.
pub open spec fn decimal(n: int) -> Seq<char> {
    if n < 0 {
        seq!['-'] + digits((-n) as nat)
    } else {
        digits(n as nat)
    }
}

/// What a failed check says: the two texts as they were quoted, the
/// distance found and the distance expected.
pub open spec fn failure_text(
    quoted_original: Seq<char>,
    quoted_edited: Seq<char>,
    distance: int,
    expected: int,
) -> Seq<char> {
    "assertion failed: edit distance between "@ + quoted_original + " and "@ + quoted_edited
        + " is "@ + decimal(distance) + " and not "@ + decimal(expected)
        + ", see diffset above"@
}

/// The text that `{:?}` writes for a string: the string in double quotes,
/// with the characters escaped that Rust escapes there.
pub uninterp spec fn debug_text(text: Seq<char>) -> Seq<char>;

/// Formats a string with `{:?}`, the `Debug` form of `str`. What comes out
/// depends on the string alone; it is known here only by the name
/// `debug_text`.
#[verifier::external_body]
fn quoted(text: &str) -> (out: String)
    ensures
        out@ == debug_text(text@),
{
    format!("{:?}", text)
}

/// Computes the character for a digit below ten.
fn digit_of(digit: u128) -> (c: char)
    requires
        digit < 10,
    ensures
        c == digit_char(digit as nat),
{
    if digit == 0 {
        '0'
    } else if digit == 1 {
        '1'
    } else if digit == 2 {
        '2'
    } else if digit == 3 {
        '3'
    } else if digit == 4 {
        '4'
    } else if digit == 5 {
        '5'
    } else if digit == 6 {
        '6'
    } else if digit == 7 {
        '7'
    } else if digit == 8 {
        '8'
    } else {
        '9'
    }
}

/// Writes the decimal digits of `n` behind `out`.
fn push_digits(out: &mut String, n: u128)
    ensures
        final(out)@ == old(out)@ + digits(n as nat),
    decreases n,
{
    if n < 10 {
        out.push(digit_of(n));
        assert(out@ =~= old(out)@ + digits(n as nat));
    } else {
        push_digits(out, n / 10);
        out.push(digit_of(n % 10));
        assert(out@ =~= old(out)@ + digits(n as nat));
    }
}

/// Writes `n` in decimal.
pub fn decimal_string(n: i128) -> (out: String)
    ensures
        out@ == decimal(n as int),
{
    let mut out = String::new();
    if n < 0 {
        out.push('-');
        let magnitude: u128 = (-(n + 1)) as u128 + 1;
        push_digits(&mut out, magnitude);
        assert(out@ =~= decimal(n as int));
    } else {
        push_digits(&mut out, n as u128);
        assert(out@ =~= decimal(n as int));
    }
    out
}

/// Puts together what a failed check says, from the two texts as they were
/// quoted, the distance found and the distance expected.
pub fn failure_message(
    quoted_original: &str,
    quoted_edited: &str,
    distance: i128,
    expected: i128,
) -> (message: String)
    ensures
        message@ == failure_text(
            quoted_original@,
            quoted_edited@,
            distance as int,
            expected as int,
        ),
{
    let mut message = String::from_str("assertion failed: edit distance between ");
    message.append(quoted_original);
    message.append(" and ");
    message.append(quoted_edited);
    message.append(" is ");
    message.append(decimal_string(distance).as_str());
    message.append(" and not ");
    message.append(decimal_string(expected).as_str());
    message.append(", see diffset above");
    message
}

/// What a check found where the distance was not the expected one.
#[derive(Clone, Debug, PartialEq, Eq)]
pub struct Mismatch {
    /// The changeset between the two texts, as text for a terminal.
    pub rendered: String,
    /// The distance between the two texts.
    pub distance: i128,
    /// What to report: both texts, the distance found and the distance
    /// expected.
    pub message: String,
}

/// Checks that the edit distance between two texts, split on `split`, is
/// `expected`. Where it is not, the changeset comes back as text, with the
/// message to fail with.
pub fn check_diff(orig: &str, edit: &str, split: &str, expected: i128) -> (outcome: Result<
    (),
    Mismatch,
>)
    ensures
        outcome is Ok <==> diff_distance(orig@, edit@, split@) == expected,
        match outcome {
            Ok(_) => true,
            Err(mismatch) => {
                &&& mismatch.rendered@ == rendered(diff_runs(orig@, edit@, split@), split@)
                &&& mismatch.distance == diff_distance(orig@, edit@, split@)
                &&& mismatch.message@ == failure_text(
                    debug_text(orig@),
                    debug_text(edit@),
                    diff_distance(orig@, edit@, split@),
                    expected as int,
                )
            },
        },
{
    let changeset = Changeset::new(orig, edit, split);
    if changeset.distance == expected {
        Ok(())
    } else {
        let message = failure_message(
            quoted(orig).as_str(),
            quoted(edit).as_str(),
            changeset.distance,
            expected,
        );
        Err(Mismatch { rendered: changeset.render(), distance: changeset.distance, message: message })
    }
}

} // verus!
