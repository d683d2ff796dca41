//! The source of process identifiers: the arguments of the command line,
//! or, where there are none, the lines of the standard input. A line that
//! gives no identifier is skipped, with a report where it is at fault, and
//! the lines after it are still read.

use crate::pid::{validate, validate_against, validated, outcome_of, Outcome};
use crate::text::{blank, blank_text, chars_of, concat, strings};
use vstd::prelude::*;

verus! {

/// What one line of input comes to.
#[derive(Debug)]
pub enum Step {
    /// The line holds this process identifier.
    Yield(i32),
    /// The line is blank.
    Skip,
    /// The line gives no identifier; with what is to be reported.
    Report(String),
}

/// What one line of input comes to, as plain values.
pub enum Stepped {
    Yield(int),
    Skip,
    Report(Seq<char>),
}

impl View for Step {
    type V = Stepped;

    open spec fn view(&self) -> Stepped {
        match self {
            Step::Yield(pid) => Stepped::Yield(*pid as int),
            Step::Skip => Stepped::Skip,
            Step::Report(message) => Stepped::Report(message@),
        }
    }
}

/// What a line of input comes to, for one reading of the kernel's limit.
/// `line` is the line as it was read, without its ending, or the text of
/// the error that reading it gave.
pub open spec fn stepped(line: Result<String, String>, pid_max: Outcome) -> Stepped {
    match line {
        Err(e) => Stepped::Report("broken line: "@ + e@),
        Ok(text) => if blank_text(text@) {
            Stepped::Skip
        } else {
            match validated(text@, pid_max) {
                Ok(pid) => Stepped::Yield(pid),
                Err(message) => Stepped::Report(message),
            }
        },
    }
}

/// The identifiers that a run of lines yields, in their order.
pub open spec fn yielded(lines: Seq<Result<String, String>>, limits: Seq<Outcome>) -> Seq<int>
    decreases lines.len(),
{
    if lines.len() == 0 {
        Seq::empty()
    } else {
        let before = yielded(lines.drop_last(), limits.drop_last());
        match stepped(lines.last(), limits.last()) {
            Stepped::Yield(pid) => before.push(pid),
            _ => before,
        }
    }
}

/// What a run of lines gives to report, in their order.
pub open spec fn reported(lines: Seq<Result<String, String>>, limits: Seq<Outcome>) -> Seq<
    Seq<char>,
>
    decreases lines.len(),
{
    if lines.len() == 0 {
        Seq::empty()
    } else {
        let before = reported(lines.drop_last(), limits.drop_last());
        match stepped(lines.last(), limits.last()) {
            Stepped::Report(message) => before.push(message),
            _ => before,
        }
    }
}

/// The identifiers in a list, as integers.
pub open spec fn ids_of(v: Seq<i32>) -> Seq<int> {
    Seq::new(v.len(), |i: int| v[i] as int)
}

/// Decides what a line of input comes to, against a reading of the
/// kernel's limit.
pub fn step_against(line: &Result<String, String>, pid_max: Result<i32, String>) -> (r: Step)
    ensures
        r@ == stepped(*line, outcome_of(pid_max)),
{
    match line {
        Err(e) => Step::Report(concat("broken line: ", e.as_str())),
        Ok(text) => {
            let v = chars_of(text.as_str());
            if blank(&v) {
                Step::Skip
            } else {
                match validate_against(text.as_str(), pid_max) {
                    Ok(pid) => Step::Yield(pid),
                    Err(message) => Step::Report(message),
                }
            }
        },
    }
}

/// Decides what a line of input comes to: a blank line is skipped, a line
/// that could not be read or that holds no valid process identifier is
/// reported, any other yields its identifier. The kernel's limit is read
/// for this line alone.
pub fn step(line: &Result<String, String>) -> (r: Step)
    ensures
        exists|pid_max: Outcome| r@ == stepped(*line, pid_max),
{
    match line {
        Err(e) => {
            let r = Step::Report(concat("broken line: ", e.as_str()));
            assert(r@ == stepped(*line, Ok(0int)));
            r
        },
        Ok(text) => {
            let v = chars_of(text.as_str());
            if blank(&v) {
                assert(Step::Skip@ == stepped(*line, Ok(0int)));
                Step::Skip
            } else {
                let checked = validate(text.as_str());
                let ghost pid_max = choose|pid_max: Outcome|
                    outcome_of(checked) == validated(text@, pid_max);
                let r = match checked {
                    Ok(pid) => Step::Yield(pid),
                    Err(message) => Step::Report(message),
                };
                assert(r@ == stepped(*line, pid_max));
                r
            }
        },
    }
}

/// Reads process identifiers from lines of input: the identifiers of the
/// valid lines in their order, and what is to be reported of the others.
/// No line ends the reading.
pub fn piderator(lines: &Vec<Result<String, String>>) -> (r: (Vec<i32>, Vec<String>))
    ensures
        exists|limits: Seq<Outcome>|
            #![auto]
            {
                &&& limits.len() == lines@.len()
                &&& ids_of(r.0@) == yielded(lines@, limits)
                &&& strings(r.1@) == reported(lines@, limits)
            },
{
    let mut ids: Vec<i32> = Vec::new();
    let mut reports: Vec<String> = Vec::new();
    let ghost mut limits: Seq<Outcome> = Seq::empty();
    let mut i: usize = 0;
    proof {
        assert(lines@.take(0) =~= Seq::<Result<String, String>>::empty());
        assert(ids_of(ids@) =~= yielded(lines@.take(0), limits));
        assert(strings(reports@) =~= reported(lines@.take(0), limits));
    }
    while i < lines.len()
        invariant
            i <= lines.len(),
            limits.len() == i,
            ids_of(ids@) == yielded(lines@.take(i as int), limits),
            strings(reports@) == reported(lines@.take(i as int), limits),
        decreases lines.len() - i,
    {
        let ghost ids_before = ids@;
        let ghost reports_before = reports@;
        let ghost limits_before = limits;
        let s = step(&lines[i]);
        proof {
            let pid_max = choose|pid_max: Outcome| s@ == stepped(lines@[i as int], pid_max);
            limits = limits.push(pid_max);
            assert(limits.drop_last() =~= limits_before);
            assert(lines@.take(i + 1).drop_last() =~= lines@.take(i as int));
            assert(lines@.take(i + 1).last() == lines@[i as int]);
        }
        match s {
            Step::Yield(pid) => {
                ids.push(pid);
                assert(ids_of(ids@) =~= ids_of(ids_before).push(pid as int));
            },
            Step::Skip => {},
            Step::Report(message) => {
                reports.push(message);
                assert(strings(reports@) =~= strings(reports_before).push(message@));
            },
        }
        i += 1;
    }
    assert(lines@.take(lines.len() as int) =~= lines@);
    (ids, reports)
}

/// Reads process identifiers from lines of input, all against one reading
/// of the kernel's limit.
pub fn piderator_against(lines: &Vec<Result<String, String>>, pid_max: &Result<i32, String>) -> (r:
    (Vec<i32>, Vec<String>))
    ensures
        ids_of(r.0@) == yielded(lines@, Seq::new(lines@.len(), |i: int| outcome_of(*pid_max))),
        strings(r.1@) == reported(lines@, Seq::new(lines@.len(), |i: int| outcome_of(*pid_max))),
{
    let mut ids: Vec<i32> = Vec::new();
    let mut reports: Vec<String> = Vec::new();
    let ghost all = Seq::new(lines@.len(), |i: int| outcome_of(*pid_max));
    let mut i: usize = 0;
    proof {
        assert(lines@.take(0) =~= Seq::<Result<String, String>>::empty());
        assert(ids_of(ids@) =~= yielded(lines@.take(0), all.take(0)));
        assert(strings(reports@) =~= reported(lines@.take(0), all.take(0)));
    }
    while i < lines.len()
        invariant
            i <= lines.len(),
            all == Seq::new(lines@.len(), |i: int| outcome_of(*pid_max)),
            ids_of(ids@) == yielded(lines@.take(i as int), all.take(i as int)),
            strings(reports@) == reported(lines@.take(i as int), all.take(i as int)),
        decreases lines.len() - i,
    {
        let ghost ids_before = ids@;
        let ghost reports_before = reports@;
        let limit = match pid_max {
            Ok(max) => Ok(*max),
            Err(e) => Err(e.clone()),
        };
        let s = step_against(&lines[i], limit);
        proof {
            assert(all.take(i + 1).drop_last() =~= all.take(i as int));
            assert(all.take(i + 1).last() == outcome_of(*pid_max));
            assert(lines@.take(i + 1).drop_last() =~= lines@.take(i as int));
            assert(lines@.take(i + 1).last() == lines@[i as int]);
        }
        match s {
            Step::Yield(pid) => {
                ids.push(pid);
                assert(ids_of(ids@) =~= ids_of(ids_before).push(pid as int));
            },
            Step::Skip => {},
            Step::Report(message) => {
                reports.push(message);
                assert(strings(reports@) =~= strings(reports_before).push(message@));
            },
        }
        i += 1;
    }
    proof {
        assert(lines@.take(lines.len() as int) =~= lines@);
        assert(all.take(lines.len() as int) =~= all);
    }
    (ids, reports)
}

/// The process identifiers to work on: those of the arguments, as they
/// are and in their order, if there are any; else those that the lines of
/// the input yield, with what is to be reported of the other lines.
pub fn args_or_stdin(args: Option<Vec<i32>>, lines: &Vec<Result<String, String>>) -> (r: (
    Vec<i32>,
    Vec<String>,
))
    ensures
        match args {
            Some(pids) => r.0@ == pids@ && r.1@.len() == 0,
            None => exists|limits: Seq<Outcome>|
                #![auto]
                {
                    &&& limits.len() == lines@.len()
                    &&& ids_of(r.0@) == yielded(lines@, limits)
                    &&& strings(r.1@) == reported(lines@, limits)
                },
        },
{
    match args {
        Some(pids) => (pids, Vec::new()),
        None => piderator(lines),
    }
}

} // verus!
