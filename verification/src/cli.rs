//! Value parsers for the arguments of the command line: each takes the raw
//! text of one argument and yields the typed value or the text of an error.

use crate::pid::{not_a_pid_text, outcome_of, pid_text, validate, validated, Outcome};
use crate::text::{
    concat, concat_decimal, decimal_text, int_in_range, parse_int, quoted, quoted_text,
};
use vstd::prelude::*;
use vstd::string::*;

verus! {

/// The token that stands for every processor the platform can address.
pub open spec fn free_text() -> Seq<char> {
    seq!['f', 'r', 'e', 'e']
}

/// `s` names a set of processors: the token `free`, or the index of one
/// processor, a number that fits 64 bits without a sign.
pub open spec fn cpuset_text(s: Seq<char>) -> bool {
    s == free_text() || int_in_range(s, false, 0, u64::MAX as int) is Some
}

/// The niceness that `s` denotes: a signed 32-bit integer in `-20..=19`.
pub open spec fn niceness_text(s: Seq<char>) -> Outcome {
    match int_in_range(s, true, i32::MIN as int, i32::MAX as int) {
        None => Err("not an i32: "@ + quoted_text(s)),
        Some(v) => if -20 <= v <= 19 {
            Ok(v)
        } else {
            Err("not a niceness value between -20 and 19: "@ + decimal_text(v))
        },
    }
}

/// The adjustment of the out-of-memory score that `s` denotes: a signed
/// 16-bit integer in `-1000..=1000`.
pub open spec fn oom_score_adj_text(s: Seq<char>) -> Outcome {
    match int_in_range(s, true, i16::MIN as int, i16::MAX as int) {
        None => Err("not an i16: "@ + quoted_text(s)),
        Some(v) => if -1000 <= v <= 1000 {
            Ok(v)
        } else {
            Err(
                "not an oom score adjustment value between -1000 and 1000: "@ + decimal_text(
                    v,
                ),
            )
        },
    }
}

/// Tells whether `s` is the token `free`.
pub fn is_free(s: &str) -> (b: bool)
    ensures
        b == (s@ == free_text()),
{
    let v = crate::text::chars_of(s);
    let b = v.len() == 4 && v[0] == 'f' && v[1] == 'r' && v[2] == 'e' && v[3] == 'e';
    proof {
        if b {
            assert(v@ =~= free_text());
        }
    }
    b
}

/// Accepts a set of processors and hands the text back as it came.
pub fn is_cpuset(s: &str) -> (r: Result<String, String>)
    ensures
        match r {
            Ok(t) => cpuset_text(s@) && t@ == s@,
            Err(e) => !cpuset_text(s@) && e@ == "invalid cpuset: "@ + quoted_text(s@),
        },
{
    if is_free(s) || parse_int(s, false, 0, u64::MAX as i128).is_some() {
        Ok(String::from_str(s))
    } else {
        let q = quoted(s);
        Err(concat("invalid cpuset: ", q.as_str()))
    }
}

/// Accepts a niceness.
pub fn is_niceness(s: &str) -> (r: Result<i32, String>)
    ensures
        outcome_of(r) == niceness_text(s@),
{
    match parse_int(s, true, i32::MIN as i128, i32::MAX as i128) {
        None => {
            let q = quoted(s);
            Err(concat("not an i32: ", q.as_str()))
        },
        Some(v) => {
            if -20 <= v && v <= 19 {
                Ok(v as i32)
            } else {
                Err(concat_decimal("not a niceness value between -20 and 19: ", v as i64))
            }
        },
    }
}

/// Accepts an adjustment of the out-of-memory score.
pub fn is_oom_score_adj(s: &str) -> (r: Result<i16, String>)
    ensures
        match r {
            Ok(v) => oom_score_adj_text(s@) == Ok::<int, Seq<char>>(v as int),
            Err(e) => oom_score_adj_text(s@) == Err::<int, Seq<char>>(e@),
        },
{
    match parse_int(s, true, i16::MIN as i128, i16::MAX as i128) {
        None => {
            let q = quoted(s);
            Err(concat("not an i16: ", q.as_str()))
        },
        Some(v) => {
            if -1000 <= v && v <= 1000 {
                Ok(v as i16)
            } else {
                Err(
                    concat_decimal(
                        "not an oom score adjustment value between -1000 and 1000: ",
                        v as i64,
                    ),
                )
            }
        },
    }
}

/// Accepts a process identifier: see `validate`.
pub fn is_pid(s: &str) -> (r: Result<i32, String>)
    ensures
        exists|pid_max: Outcome| outcome_of(r) == validated(s@, pid_max),
        pid_text(s@) is None ==> outcome_of(r) == Err::<int, Seq<char>>(not_a_pid_text(s@)),
        r matches Ok(v) ==> pid_text(s@) == Some(v as int) && v >= 1,
{
    validate(s)
}

} // verus!
