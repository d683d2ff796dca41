//! What the changes to a process tree are made of: the set of processors
//! that an argument names, and the process that a niceness is set for.

use crate::cli::{free_text, is_free};
use crate::text::{
    concat_decimal, decimal_text, int_in_range, parse_int, push_decimal, push_str, string_of,
};
use vstd::prelude::*;

verus! {

/// The indices `0, 1, .. n - 1`.
pub open spec fn indices(n: nat) -> Seq<int> {
    Seq::new(n, |i: int| i)
}

/// The processors in a list, as integers.
pub open spec fn cpus_of(v: Seq<usize>) -> Seq<int> {
    Seq::new(v.len(), |i: int| v[i] as int)
}

/// The processors that the argument `s` names, on a platform that can
/// address `size` of them: all of them for the token `free`, else the one
/// whose index `s` is.
pub open spec fn cpuset_of(s: Seq<char>, size: nat) -> Seq<int> {
    if s == free_text() {
        indices(size)
    } else {
        match int_in_range(s, false, 0, usize::MAX as int) {
            Some(index) => seq![index],
            None => Seq::empty(),
        }
    }
}

/// The argument `s` names a set of processors that fits this machine: the
/// token `free`, or an index that fits a `usize`.
pub open spec fn names_cpuset(s: Seq<char>) -> bool {
    s == free_text() || int_in_range(s, false, 0, usize::MAX as int) is Some
}

/// The processors that an argument names, if it names any.
pub fn cpuset(s: &str, size: usize) -> (r: Option<Vec<usize>>)
    ensures
        match r {
            Some(cpus) => names_cpuset(s@) && cpus_of(cpus@) == cpuset_of(s@, size as nat),
            None => !names_cpuset(s@),
        },
{
    if is_free(s) {
        let mut cpus: Vec<usize> = Vec::new();
        let mut i: usize = 0;
        while i < size
            invariant
                i <= size,
                cpus@.len() == i,
                forall|j: int| 0 <= j < i ==> cpus@[j] == j,
            decreases size - i,
        {
            cpus.push(i);
            i += 1;
        }
        assert(cpus_of(cpus@) =~= indices(size as nat));
        Some(cpus)
    } else {
        match parse_int(s, false, 0, usize::MAX as i128) {
            Some(index) => {
                let mut cpus: Vec<usize> = Vec::new();
                cpus.push(index as usize);
                assert(cpus_of(cpus@) =~= seq![index as int]);
                Some(cpus)
            },
            None => None,
        }
    }
}

/// The process whose niceness is read or set: the identifier as the
/// system call takes it, without a sign; or the text of the error for an
/// identifier that has one.
pub open spec fn nice_target_of(pid: int) -> Result<int, Seq<char>> {
    if pid >= 0 {
        Ok(pid)
    } else {
        Err("invalid process id: "@ + decimal_text(pid))
    }
}

/// The process whose niceness is read or set.
pub fn nice_target(pid: i32) -> (r: Result<u32, String>)
    ensures
        match r {
            Ok(id) => nice_target_of(pid as int) == Ok::<int, Seq<char>>(id as int),
            Err(e) => nice_target_of(pid as int) == Err::<int, Seq<char>>(e@),
        },
{
    if pid >= 0 {
        Ok(pid as u32)
    } else {
        Err(concat_decimal("invalid process id: ", pid as i64))
    }
}

/// The line that tells, where asked for, which process is being changed.
pub fn modifying(pid: i32, comm: &str) -> (r: String)
    ensures
        r@ == "modifying process "@ + decimal_text(pid as int) + " "@ + comm@,
{
    let mut out: Vec<char> = Vec::new();
    push_str(&mut out, "modifying process ");
    push_decimal(&mut out, pid as i64);
    push_str(&mut out, " ");
    push_str(&mut out, comm);
    let r = string_of(&out, 0, out.len());
    assert(out@.subrange(0, out@.len() as int) =~= out@);
    assert(out@ =~= "modifying process "@ + decimal_text(pid as int) + " "@ + comm@);
    r
}

} // verus!
