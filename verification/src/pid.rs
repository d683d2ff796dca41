//! Validation of process identifiers given as text.

use crate::text::{
    concat, concat_decimal, decimal_text, int_in_range, lemma_decimal_text, parse_int, quoted,
    quoted_text,
};
use vstd::prelude::*;

verus! {

/// What a validation yields, as plain values: the number, or the text of
/// the error.
pub type Outcome = Result<int, Seq<char>>;

/// The plain value of a validation's result.
pub open spec fn outcome_of(r: Result<i32, String>) -> Outcome {
    match r {
        Ok(v) => Ok(v as int),
        Err(e) => Err(e@),
    }
}

/// The signed 32-bit integer that `s` denotes.
pub open spec fn pid_text(s: Seq<char>) -> Option<int> {
    int_in_range(s, true, i32::MIN as int, i32::MAX as int)
}

/// The error for text that denotes no signed 32-bit integer.
pub open spec fn not_a_pid_text(s: Seq<char>) -> Seq<char> {
    "not a process ID: "@ + quoted_text(s)
}

/// The error for a number outside the kernel's range.
pub open spec fn invalid_pid_text(pid: int) -> Seq<char> {
    "invalid PID: "@ + decimal_text(pid)
}

/// The range check: `pid` passes if it lies in `1..=pid_max`. Where the
/// kernel's limit could not be read, the error of that reading stands.
pub open spec fn range_checked(pid: int, pid_max: Outcome) -> Outcome {
    match pid_max {
        Err(e) => Err(e),
        Ok(max) => if 1 <= pid <= max {
            Ok(pid)
        } else {
            Err(invalid_pid_text(pid))
        },
    }
}

/// The whole validation of `s` against a reading of the kernel's limit.
/// The limit matters only where `s` denotes a number.
pub open spec fn validated(s: Seq<char>, pid_max: Outcome) -> Outcome {
    match pid_text(s) {
        None => Err(not_a_pid_text(s)),
        Some(pid) => range_checked(pid, pid_max),
    }
}

/// `procfs::sys::kernel::pid_max` reads the largest process identifier that
/// the kernel hands out at this moment; an error of the reading comes back
/// as its text. The value can change between two calls, so nothing is
/// claimed of it.
#[verifier::external_body]
fn kernel_pid_max() -> (r: Result<i32, String>) {
    procfs::sys::kernel::pid_max().map_err(|e| format!("{}", e))
}

/// Checks `pid` against a reading of the kernel's limit.
pub fn check_against(pid: i32, pid_max: Result<i32, String>) -> (r: Result<i32, String>)
    ensures
        outcome_of(r) == range_checked(pid as int, outcome_of(pid_max)),
{
    match pid_max {
        Err(e) => Err(e),
        Ok(max) => {
            if pid < 1 || pid > max {
                Err(concat_decimal("invalid PID: ", pid as i64))
            } else {
                Ok(pid)
            }
        },
    }
}

/// Checks `pid` against the kernel's limit, read now.
pub fn check_range(pid: i32) -> (r: Result<i32, String>)
    ensures
        exists|pid_max: Outcome| outcome_of(r) == range_checked(pid as int, pid_max),
        r matches Ok(v) ==> v == pid && pid >= 1,
{
    let pid_max = kernel_pid_max();
    let r = check_against(pid, pid_max);
    assert(outcome_of(r) == range_checked(pid as int, outcome_of(pid_max)));
    r
}

/// Validates `s` against a reading of the kernel's limit.
pub fn validate_against(s: &str, pid_max: Result<i32, String>) -> (r: Result<i32, String>)
    ensures
        outcome_of(r) == validated(s@, outcome_of(pid_max)),
{
    match parse_int(s, true, i32::MIN as i128, i32::MAX as i128) {
        None => {
            let q = quoted(s);
            Err(concat("not a process ID: ", q.as_str()))
        },
        Some(v) => check_against(v as i32, pid_max),
    }
}

/// Validates `s` as a process identifier: it must denote a signed integer
/// in `1..=pid_max`, where `pid_max` is the kernel's limit, read at this
/// call and only if `s` denotes a number.
pub fn validate(s: &str) -> (r: Result<i32, String>)
    ensures
        exists|pid_max: Outcome| outcome_of(r) == validated(s@, pid_max),
        pid_text(s@) is None ==> outcome_of(r) == Err::<int, Seq<char>>(not_a_pid_text(s@)),
        r matches Ok(v) ==> pid_text(s@) == Some(v as int) && v >= 1,
{
    match parse_int(s, true, i32::MIN as i128, i32::MAX as i128) {
        None => {
            let q = quoted(s);
            let r = Err(concat("not a process ID: ", q.as_str()));
            assert(outcome_of(r) == validated(s@, Ok(0int)));
            r
        },
        Some(v) => {
            let r = check_range(v as i32);
            let ghost m = choose|m: Outcome| outcome_of(r) == range_checked(v as int, m);
            assert(outcome_of(r) == validated(s@, m));
            r
        },
    }
}


/// The bounds of validation: against a limit `pid_max`, a number written
/// in decimal is valid if and only if it lies in `1..=pid_max`. So `0` and
/// `pid_max + 1` fail, and, where the limit is 1 or more, `1` and `pid_max`
/// pass.
pub proof fn lemma_validation_bounds(number: int, pid_max: i32)
    ensures
        validated(decimal_text(number), Ok(pid_max as int)) == if 1 <= number <= pid_max {
            Ok::<int, Seq<char>>(number)
        } else if i32::MIN <= number <= i32::MAX {
            Err::<int, Seq<char>>(invalid_pid_text(number))
        } else {
            Err::<int, Seq<char>>(not_a_pid_text(decimal_text(number)))
        },
        validated(decimal_text(0), Ok(pid_max as int)) is Err,
        validated(decimal_text(pid_max + 1), Ok(pid_max as int)) is Err,
        pid_max >= 1 ==> validated(decimal_text(1), Ok(pid_max as int)) == Ok::<int, Seq<char>>(1),
        pid_max >= 1 ==> validated(decimal_text(pid_max as int), Ok(pid_max as int)) == Ok::<
            int,
            Seq<char>,
        >(pid_max as int),
{
    lemma_decimal_text(number);
    lemma_decimal_text(0);
    lemma_decimal_text(1);
    lemma_decimal_text(pid_max as int);
    lemma_decimal_text(pid_max + 1);
}

/// Text that denotes no number fails validation whatever the limit, with
/// an error that says that it is no process identifier.
pub proof fn lemma_validation_of_other_text(s: Seq<char>, pid_max: Outcome)
    requires
        int_in_range(s, true, i32::MIN as int, i32::MAX as int) is None,
    ensures
        validated(s, pid_max) == Err::<int, Seq<char>>(not_a_pid_text(s)),
{
}

} // verus!
