//! The identifier of a process or of a thread.

use vstd::prelude::*;

verus! {

/// A process identifier: the key by which processes, their parents and
/// their threads are told apart.
#[derive(Clone, Copy, Debug, PartialEq, Eq, Hash, Structural)]
pub struct ProcessID(pub i32);

impl View for ProcessID {
    type V = int;

    open spec fn view(&self) -> int {
        self.0 as int
    }
}

} // verus!
