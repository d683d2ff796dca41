//! The texts that a drawn tree shows for a process: the line of a node,
//! and what is kept of a debugger's backtrace.

use crate::text::{
    blank, blank_text, chars_of, decimal_text, join, joined, lines, lines_of, push_decimal,
    push_range, push_str, string_of, strings, texts,
};
use vstd::prelude::*;

verus! {

/// The command that a node shows: the arguments of the process, joined by
/// blanks, where they are asked for and could be read; else its name.
pub open spec fn command_of(arguments: bool, cmdline: Option<Vec<String>>, comm: Seq<char>) -> Seq<
    char,
> {
    match cmdline {
        Some(words) => if arguments {
            joined(strings(words@), " "@)
        } else {
            comm
        },
        None => comm,
    }
}

/// The command that a node shows.
pub fn command(arguments: bool, cmdline: &Option<Vec<String>>, comm: &str) -> (r: String)
    ensures
        r@ == command_of(arguments, *cmdline, comm@),
{
    match cmdline {
        Some(words) => {
            if arguments {
                let mut parts: Vec<Vec<char>> = Vec::new();
                let mut i: usize = 0;
                while i < words.len()
                    invariant
                        i <= words.len(),
                        texts(parts@) == strings(words@).take(i as int),
                    decreases words.len() - i,
                {
                    let part = chars_of(words[i].as_str());
                    let ghost before = parts@;
                    parts.push(part);
                    assert(texts(parts@) =~= texts(before).push(part@));
                    assert(strings(words@).take(i + 1) =~= strings(words@).take(i as int).push(
                        words@[i as int]@,
                    ));
                    i += 1;
                }
                assert(strings(words@).take(words.len() as int) =~= strings(words@));
                let out = join(&parts, " ");
                let r = string_of(&out, 0, out.len());
                assert(out@.subrange(0, out@.len() as int) =~= out@);
                r
            } else {
                String::from_str(comm)
            }
        },
        None => String::from_str(comm),
    }
}

/// Each of `rows` behind `head` and a blank.
pub open spec fn prefixed(head: Seq<char>, rows: Seq<Seq<char>>) -> Seq<Seq<char>> {
    Seq::new(rows.len(), |i: int| head + " "@ + rows[i])
}

/// The text of a node: the identifier and the command of the process, and
/// behind them the payload. A payload of several lines gives as many
/// lines, each with the identifier and the command in front; a blank one
/// gives the identifier and the command alone.
pub open spec fn node_text_of(pid: int, command: Seq<char>, payload: Seq<char>) -> Seq<char> {
    let head = decimal_text(pid) + " "@ + command;
    if blank_text(payload) {
        head
    } else {
        joined(prefixed(head, lines_of(payload)), "\n"@)
    }
}

/// The text of a node.
pub fn node_text(pid: i32, command: &str, payload: &str) -> (r: String)
    ensures
        r@ == node_text_of(pid as int, command@, payload@),
{
    let mut head: Vec<char> = Vec::new();
    push_decimal(&mut head, pid as i64);
    push_str(&mut head, " ");
    push_str(&mut head, command);
    let p = chars_of(payload);
    let out = if blank(&p) {
        head
    } else {
        let rows = lines(&p);
        let mut parts: Vec<Vec<char>> = Vec::new();
        let mut i: usize = 0;
        while i < rows.len()
            invariant
                i <= rows.len(),
                texts(parts@) == prefixed(head@, texts(rows@)).take(i as int),
            decreases rows.len() - i,
        {
            let mut part: Vec<char> = Vec::new();
            push_range(&mut part, &head, 0, head.len());
            push_str(&mut part, " ");
            push_range(&mut part, &rows[i], 0, rows[i].len());
            let ghost before = parts@;
            proof {
                assert(head@.subrange(0, head@.len() as int) =~= head@);
                assert(rows@[i as int]@.subrange(0, rows@[i as int]@.len() as int)
                    =~= rows@[i as int]@);
                assert(part@ =~= head@ + " "@ + rows@[i as int]@);
            }
            parts.push(part);
            proof {
                assert(texts(parts@) =~= texts(before).push(part@));
                assert(prefixed(head@, texts(rows@)).take(i + 1) =~= prefixed(
                    head@,
                    texts(rows@),
                ).take(i as int).push(part@));
            }
            i += 1;
        }
        assert(prefixed(head@, texts(rows@)).take(rows.len() as int) =~= prefixed(
            head@,
            texts(rows@),
        ));
        join(&parts, "\n")
    };
    let r = string_of(&out, 0, out.len());
    assert(out@.subrange(0, out@.len() as int) =~= out@);
    r
}

/// A line of a backtrace that names a frame: it begins with `#`.
pub open spec fn is_frame(line: Seq<char>) -> bool {
    line.len() > 0 && line[0] == '#'
}

/// The lines that are kept of a debugger's output: all of them if
/// `verbose`, else those that name a frame; in their order.
pub open spec fn kept(rows: Seq<Seq<char>>, verbose: bool) -> Seq<Seq<char>>
    decreases rows.len(),
{
    if rows.len() == 0 {
        Seq::empty()
    } else if verbose || is_frame(rows.last()) {
        kept(rows.drop_last(), verbose).push(rows.last())
    } else {
        kept(rows.drop_last(), verbose)
    }
}

/// The backtrace in a debugger's output.
pub open spec fn backtrace_of(output: Seq<char>, verbose: bool) -> Seq<char> {
    joined(kept(lines_of(output), verbose), "\n"@)
}

/// The lines of `rows`, each behind a blank, one after the other.
pub open spec fn spaced(rows: Seq<Seq<char>>) -> Seq<char>
    decreases rows.len(),
{
    if rows.len() == 0 {
        Seq::empty()
    } else {
        spaced(rows.drop_last()) + " "@ + rows.last()
    }
}

/// How a run of the debugger on a process ended.
#[derive(Debug)]
pub enum DebuggerRun {
    /// It could not be started; with the reason.
    NotStarted(String),
    /// It ran and failed; with what it wrote to its error output.
    Failed(String),
    /// It ran; with what it wrote to its output.
    Done(String),
}

/// The payload of a backtrace, or the text of the error: the process with
/// its name, and why there is no backtrace.
pub open spec fn backtrace_payload_of(
    pid: int,
    comm: Seq<char>,
    run: DebuggerRun,
    verbose: bool,
) -> Result<Seq<char>, Seq<char>> {
    match run {
        DebuggerRun::NotStarted(reason) => Err(
            decimal_text(pid) + " "@ + comm + " failed to run gdb: "@ + reason@,
        ),
        DebuggerRun::Failed(errors) => Err(
            decimal_text(pid) + " "@ + comm + " "@ + spaced(lines_of(errors@)),
        ),
        DebuggerRun::Done(output) => Ok(backtrace_of(output@, verbose)),
    }
}

/// The plain value of a payload.
pub open spec fn payload_of(r: Result<String, String>) -> Result<Seq<char>, Seq<char>> {
    match r {
        Ok(s) => Ok(s@),
        Err(e) => Err(e@),
    }
}

/// Makes the payload of a backtrace out of a run of the debugger.
pub fn backtrace(pid: i32, comm: &str, run: &DebuggerRun, verbose: bool) -> (r: Result<
    String,
    String,
>)
    ensures
        payload_of(r) == backtrace_payload_of(pid as int, comm@, *run, verbose),
{
    let mut out: Vec<char> = Vec::new();
    match run {
        DebuggerRun::Done(output) => {
            let v = chars_of(output.as_str());
            let rows = lines(&v);
            let mut parts: Vec<Vec<char>> = Vec::new();
            let mut i: usize = 0;
            assert(texts(rows@).take(0) =~= Seq::<Seq<char>>::empty());
            assert(texts(parts@) =~= kept(texts(rows@).take(0), verbose));
            while i < rows.len()
                invariant
                    i <= rows.len(),
                    texts(parts@) == kept(texts(rows@).take(i as int), verbose),
                decreases rows.len() - i,
            {
                let row = &rows[i];
                proof {
                    assert(texts(rows@).take(i + 1).drop_last() =~= texts(rows@).take(i as int));
                    assert(texts(rows@).take(i + 1).last() == row@);
                }
                if verbose || (row.len() > 0 && row[0] == '#') {
                    let mut part: Vec<char> = Vec::new();
                    push_range(&mut part, row, 0, row.len());
                    let ghost before = parts@;
                    assert(part@ =~= row@) by {
                        assert(row@.subrange(0, row@.len() as int) =~= row@);
                    }
                    parts.push(part);
                    assert(texts(parts@) =~= texts(before).push(part@));
                }
                i += 1;
            }
            assert(texts(rows@).take(rows.len() as int) =~= texts(rows@));
            let joined_rows = join(&parts, "\n");
            let r = string_of(&joined_rows, 0, joined_rows.len());
            assert(joined_rows@.subrange(0, joined_rows@.len() as int) =~= joined_rows@);
            Ok(r)
        },
        DebuggerRun::Failed(errors) => {
            push_decimal(&mut out, pid as i64);
            push_str(&mut out, " ");
            push_str(&mut out, comm);
            push_str(&mut out, " ");
            let ghost head = out@;
            let v = chars_of(errors.as_str());
            let rows = lines(&v);
            let mut i: usize = 0;
            assert(texts(rows@).take(0) =~= Seq::<Seq<char>>::empty());
            assert(out@ =~= head + spaced(texts(rows@).take(0)));
            while i < rows.len()
                invariant
                    i <= rows.len(),
                    out@ == head + spaced(texts(rows@).take(i as int)),
                decreases rows.len() - i,
            {
                proof {
                    assert(texts(rows@).take(i + 1).drop_last() =~= texts(rows@).take(i as int));
                    assert(texts(rows@).take(i + 1).last() == rows@[i as int]@);
                    assert(rows@[i as int]@.subrange(0, rows@[i as int]@.len() as int)
                        =~= rows@[i as int]@);
                }
                push_str(&mut out, " ");
                push_range(&mut out, &rows[i], 0, rows[i].len());
                assert(out@ =~= head + spaced(texts(rows@).take(i + 1)));
                i += 1;
            }
            assert(texts(rows@).take(rows.len() as int) =~= texts(rows@));
            let r = string_of(&out, 0, out.len());
            proof {
                assert(out@.subrange(0, out@.len() as int) =~= out@);
                assert(out@ =~= decimal_text(pid as int) + " "@ + comm@ + " "@ + spaced(
                    lines_of(errors@),
                ));
            }
            Err(r)
        },
        DebuggerRun::NotStarted(reason) => {
            push_decimal(&mut out, pid as i64);
            push_str(&mut out, " ");
            push_str(&mut out, comm);
            push_str(&mut out, " failed to run gdb: ");
            push_str(&mut out, reason.as_str());
            let r = string_of(&out, 0, out.len());
            proof {
                assert(out@.subrange(0, out@.len() as int) =~= out@);
                assert(out@ =~= decimal_text(pid as int) + " "@ + comm@ + " failed to run gdb: "@
                    + reason@);
            }
            Err(r)
        },
    }
}


/// The numbers of `v` in decimal.
pub open spec fn decimals(v: Seq<usize>) -> Seq<Seq<char>> {
    Seq::new(v.len(), |i: int| decimal_text(v[i] as int))
}

/// A list of processors as it is shown: the indices in decimal, with a
/// comma and a blank between each two, in square brackets.
pub open spec fn affinity_of(cpus: Seq<usize>) -> Seq<char> {
    "["@ + joined(decimals(cpus), ", "@) + "]"@
}

/// Shows a list of processors.
pub fn affinity(cpus: &Vec<usize>) -> (r: String)
    ensures
        r@ == affinity_of(cpus@),
{
    let mut parts: Vec<Vec<char>> = Vec::new();
    let mut i: usize = 0;
    while i < cpus.len()
        invariant
            i <= cpus.len(),
            texts(parts@) == decimals(cpus@).take(i as int),
        decreases cpus.len() - i,
    {
        let mut part: Vec<char> = Vec::new();
        crate::text::push_digits(&mut part, cpus[i] as u64);
        let ghost before = parts@;
        parts.push(part);
        proof {
            assert(texts(parts@) =~= texts(before).push(part@));
            assert(decimals(cpus@).take(i + 1) =~= decimals(cpus@).take(i as int).push(part@));
        }
        i += 1;
    }
    assert(decimals(cpus@).take(cpus.len() as int) =~= decimals(cpus@));
    let inner = join(&parts, ", ");
    let mut out: Vec<char> = Vec::new();
    push_str(&mut out, "[");
    push_range(&mut out, &inner, 0, inner.len());
    push_str(&mut out, "]");
    let r = string_of(&out, 0, out.len());
    proof {
        assert(inner@.subrange(0, inner@.len() as int) =~= inner@);
        assert(out@.subrange(0, out@.len() as int) =~= out@);
    }
    r
}

} // verus!
