//! Threads in a process tree: every process gets its threads as leaves.

use crate::tree::walk::{accepts, lemma_child_nodes, lemma_preorder_all_take};
use crate::text::{decimal_text, push_decimal, push_str, string_of};
use crate::tree::{
    built, leaf, lemma_shapes, preorder, preorder_all, shapes, ProcessEntry, ProcessTree, Threads,
    TreeShape,
};
use crate::util::pid::ProcessID;
use vstd::prelude::*;

verus! {

/// One thread in the listing of a process's threads.
#[derive(Clone, Copy, Debug)]
pub struct ThreadEntry {
    /// The identifier of the thread.
    pub tid: ProcessID,
    /// Whether the thread could be looked up.
    pub readable: bool,
}

/// Why a tree could not be built.
#[derive(Debug)]
pub enum BuildError {
    /// The root process cannot be found.
    Root(ProcessID),
    /// The listing of all processes cannot be read; with the reason.
    Listing(String),
    /// The threads of a process cannot be listed; with the reason.
    Threads { process: ProcessID, message: String },
    /// A thread of a process cannot be looked up.
    Thread { process: ProcessID, thread: ProcessID },
}

/// The threads of `process` in a listing that become leaves: all but the
/// one that is the process itself, in the order of the listing.
pub open spec fn thread_ids(listing: Seq<ThreadEntry>, process: ProcessID) -> Seq<ProcessID>
    decreases listing.len(),
{
    if listing.len() == 0 {
        Seq::empty()
    } else if listing.last().tid != process {
        thread_ids(listing.drop_last(), process).push(listing.last().tid)
    } else {
        thread_ids(listing.drop_last(), process)
    }
}

/// The first thread in a listing, other than the process itself, that
/// could not be looked up.
pub open spec fn first_unreadable(listing: Seq<ThreadEntry>, process: ProcessID) -> Option<
    ProcessID,
>
    decreases listing.len(),
{
    if listing.len() == 0 {
        None
    } else {
        match first_unreadable(listing.drop_last(), process) {
            Some(tid) => Some(tid),
            None => if listing.last().tid != process && !listing.last().readable {
                Some(listing.last().tid)
            } else {
                None
            },
        }
    }
}

/// A row of trees of one node each.
pub open spec fn leaves(ids: Seq<ProcessID>) -> Seq<TreeShape> {
    Seq::new(ids.len(), |i: int| leaf(ids[i]))
}

/// `after` is `before` with threads: the same processes in the same
/// places, and behind the children of each process its threads as leaves,
/// as a listing that `list` gave for that process names them.
pub open spec fn threaded<F: Fn(ProcessID) -> Result<Vec<ThreadEntry>, String>>(
    before: TreeShape,
    list: &F,
    after: TreeShape,
) -> bool
    decreases before,
{
    &&& after.root == before.root
    &&& after.children.len() >= before.children.len()
    &&& forall|i: int|
        0 <= i < before.children.len() ==> threaded(
            #[trigger] before.children[i],
            list,
            after.children[i],
        )
    &&& exists|listing: Vec<ThreadEntry>|
        #![auto]
        {
            &&& call_ensures(list, (before.root,), Ok::<Vec<ThreadEntry>, String>(listing))
            &&& first_unreadable(listing@, before.root) is None
            &&& after.children.skip(before.children.len() as int) == leaves(
                thread_ids(listing@, before.root),
            )
        }
}

/// `error` tells of a process of the tree `t` for which `list` gave no
/// listing, or a listing with a thread that could not be looked up.
pub open spec fn thread_failure<F: Fn(ProcessID) -> Result<Vec<ThreadEntry>, String>>(
    t: TreeShape,
    list: &F,
    error: BuildError,
) -> bool {
    match error {
        BuildError::Threads { process, message } => {
            &&& preorder(t).contains(process)
            &&& call_ensures(list, (process,), Err::<Vec<ThreadEntry>, String>(message))
        },
        BuildError::Thread { process, thread } => {
            &&& preorder(t).contains(process)
            &&& exists|listing: Vec<ThreadEntry>|
                #![auto]
                {
                    &&& call_ensures(list, (process,), Ok::<Vec<ThreadEntry>, String>(listing))
                    &&& first_unreadable(listing@, process) == Some(thread)
                }
        },
        _ => false,
    }
}


/// A thread that could not be looked up in the beginning of a listing is
/// the first such thread of the whole listing.
pub proof fn lemma_first_unreadable_take(listing: Seq<ThreadEntry>, process: ProcessID, k: int)
    requires
        0 <= k <= listing.len(),
        first_unreadable(listing.take(k), process) is Some,
    ensures
        first_unreadable(listing, process) == first_unreadable(listing.take(k), process),
    decreases listing.len(),
{
    if k == listing.len() {
        assert(listing.take(k) =~= listing);
    } else {
        assert(listing.drop_last().take(k) =~= listing.take(k));
        lemma_first_unreadable_take(listing.drop_last(), process, k);
    }
}

impl ProcessTree {
    /// Recursively adds threads to the children of their respective parent
    /// processes in the tree: first under every child, then the threads of
    /// this process itself, as `list` names them, all but the one that is
    /// the process. It ends at the first process whose threads cannot be
    /// listed and at the first thread that could not be looked up.
    pub fn add_threads<F: Fn(ProcessID) -> Result<Vec<ThreadEntry>, String>>(
        &mut self,
        list: &F,
    ) -> (r: Result<(), BuildError>)
        requires
            accepts(list, preorder(old(self)@)),
        ensures
            final(self).root == old(self).root,
            match r {
                Ok(()) => threaded(old(self)@, list, final(self)@),
                Err(e) => thread_failure(old(self)@, list, e),
            },
        decreases *old(self),
    {
        let ghost kids = shapes(old(self).children@);
        let ghost ids = preorder(old(self)@);
        let n = self.children.len();
        proof {
            lemma_shapes(old(self).children@);
            assert(ids[0] == self.root);
        }
        let mut i: usize = 0;
        while i < n
            invariant
                i <= n,
                n == self.children@.len(),
                n == old(self).children@.len(),
                self.root == old(self).root,
                kids == shapes(old(self).children@),
                kids.len() == n,
                forall|j: int| 0 <= j < n ==> (#[trigger] kids[j]) == old(self).children@[j]@,
                ids == preorder(old(self)@),
                ids == seq![self.root] + preorder_all(kids),
                accepts(list, ids),
                forall|j: int| 0 <= j < i ==> threaded(#[trigger] kids[j], list, self.children@[j]@),
                forall|j: int| i <= j < n ==> (#[trigger] self.children@[j]) == old(
                    self,
                ).children@[j],
            decreases n - i,
        {
            let ghost mine = preorder(kids[i as int]);
            let ghost row = self.children@;
            proof {
                lemma_preorder_all_take(kids, i as int);
                lemma_preorder_all_take(kids, i + 1);
                let done = preorder_all(kids.take(i as int));
                assert forall|j: int| 0 <= j < mine.len() implies call_requires(
                    list,
                    (#[trigger] mine[j],),
                ) by {
                    assert(mine[j] == preorder_all(kids.take(i + 1))[done.len() + j]);
                    assert(mine[j] == ids[1 + done.len() + j]);
                }
                assert(self.children@[i as int] == old(self).children@[i as int]);
            }
            match self.children[i].add_threads(list) {
                Err(e) => {
                    proof {
                        match e {
                            BuildError::Threads { process, .. } => {
                                lemma_child_nodes(old(self)@, i as int, process);
                            },
                            BuildError::Thread { process, .. } => {
                                lemma_child_nodes(old(self)@, i as int, process);
                            },
                            _ => {},
                        }
                    }
                    return Err(e);
                },
                Ok(()) => {},
            }
            i += 1;
        }
        match list(self.root) {
            Err(message) => {
                proof {
                    assert(ids.contains(self.root));
                }
                Err(BuildError::Threads { process: self.root, message })
            },
            Ok(listing) => {
                let ghost under = self.children@;
                let mut k: usize = 0;
                proof {
                    assert(listing@.take(0) =~= Seq::<ThreadEntry>::empty());
                    assert(self.children@ =~= under + Seq::<ProcessTree>::empty());
                }
                while k < listing.len()
                    invariant
                        k <= listing.len(),
                        self.root == old(self).root,
                        ids == preorder(old(self)@),
                        ids.len() > 0,
                        ids[0] == self.root,
                        call_ensures(
                            list,
                            (self.root,),
                            Ok::<Vec<ThreadEntry>, String>(listing),
                        ),
                        first_unreadable(listing@.take(k as int), self.root) is None,
                        self.children@.len() == n + thread_ids(
                            listing@.take(k as int),
                            self.root,
                        ).len(),
                        self.children@.take(n as int) == under,
                        forall|j: int|
                            0 <= j < thread_ids(listing@.take(k as int), self.root).len() ==> (
                            #[trigger] self.children@[n + j])@ == leaf(
                                thread_ids(listing@.take(k as int), self.root)[j],
                            ),
                    decreases listing.len() - k,
                {
                    let entry = listing[k];
                    proof {
                        assert(listing@.take(k + 1).drop_last() =~= listing@.take(k as int));
                        assert(listing@.take(k + 1).last() == entry);
                    }
                    if entry.tid != self.root {
                        if !entry.readable {
                            proof {
                                lemma_first_unreadable_take(listing@, self.root, k + 1);
                                assert(ids.contains(self.root));
                            }
                            return Err(
                                BuildError::Thread { process: self.root, thread: entry.tid },
                            );
                        }
                        let ghost row = self.children@;
                        self.children.push(ProcessTree::from(entry.tid));
                        proof {
                            assert(self.children@.take(n as int) =~= row.take(n as int));
                        }
                    }
                    k += 1;
                }
                proof {
                    assert(listing@.take(listing.len() as int) =~= listing@);
                    lemma_shapes(self.children@);
                    let after = self@;
                    let before = old(self)@;
                    let added = thread_ids(listing@, self.root);
                    assert(after.children.len() == n + added.len());
                    assert forall|j: int| 0 <= j < added.len() implies (#[trigger] after.children.skip(
                        n as int,
                    )[j]) == leaves(added)[j] by {
                        assert(after.children[n + j] == self.children@[n + j]@);
                    }
                    assert(after.children.skip(n as int) =~= leaves(added));
                    assert forall|j: int| 0 <= j < before.children.len() implies threaded(
                        #[trigger] before.children[j],
                        list,
                        after.children[j],
                    ) by {
                        assert(self.children@[j] == under[j]);
                    }
                }
                Ok(())
            },
        }
    }
}


impl BuildError {
    /// The text of the error. It names the process, and the thread where
    /// one is at fault.
    pub open spec fn text(self) -> Seq<char> {
        match self {
            BuildError::Root(process) => "reading process "@ + decimal_text(process@)
                + " failed"@,
            BuildError::Listing(message) => "reading all processes failed: "@ + message@,
            BuildError::Threads { process, message } => "adding threads to tree failed: listing threads of process "@
                + decimal_text(process@) + " failed: "@ + message@,
            BuildError::Thread { process, thread } => "adding threads to tree failed: reading thread "@
                + decimal_text(thread@) + " of process "@ + decimal_text(process@) + " failed"@,
        }
    }

    /// The text of the error.
    pub fn message(&self) -> (r: String)
        ensures
            r@ == self.text(),
    {
        let mut out: Vec<char> = Vec::new();
        match self {
            BuildError::Root(process) => {
                push_str(&mut out, "reading process ");
                push_decimal(&mut out, process.0 as i64);
                push_str(&mut out, " failed");
                assert(out@ =~= self.text());
            },
            BuildError::Listing(message) => {
                push_str(&mut out, "reading all processes failed: ");
                push_str(&mut out, message.as_str());
                assert(out@ =~= self.text());
            },
            BuildError::Threads { process, message } => {
                push_str(&mut out, "adding threads to tree failed: listing threads of process ");
                push_decimal(&mut out, process.0 as i64);
                push_str(&mut out, " failed: ");
                push_str(&mut out, message.as_str());
                assert(out@ =~= self.text());
            },
            BuildError::Thread { process, thread } => {
                push_str(&mut out, "adding threads to tree failed: reading thread ");
                push_decimal(&mut out, thread.0 as i64);
                push_str(&mut out, " of process ");
                push_decimal(&mut out, process.0 as i64);
                push_str(&mut out, " failed");
                assert(out@ =~= self.text());
            },
        }
        let r = string_of(&out, 0, out.len());
        assert(out@.subrange(0, out@.len() as int) =~= out@);
        r
    }
}

/// What building a tree comes to. `found` tells whether the root process
/// was found, `listing` is the listing of all processes or the reason why
/// there is none, and `list` names the threads of a process.
pub open spec fn made<F: Fn(ProcessID) -> Result<Vec<ThreadEntry>, String>>(
    root: ProcessID,
    found: bool,
    listing: Result<Vec<ProcessEntry>, String>,
    threads: Threads,
    list: &F,
    r: Result<ProcessTree, BuildError>,
) -> bool {
    if !found {
        r matches Err(e) && e == BuildError::Root(root)
    } else {
        match listing {
            Err(message) => r matches Err(e) && e == BuildError::Listing(message),
            Ok(entries) => if threads.0 {
                match r {
                    Ok(tree) => threaded(built(entries@, root), list, tree@),
                    Err(e) => thread_failure(built(entries@, root), list, e),
                }
            } else {
                r matches Ok(tree) && tree@ == built(entries@, root)
            },
        }
    }
}

impl ProcessTree {
    /// Returns a new process tree with parent `pid` as its root, out of one
    /// listing of all processes. It fails if the root process was not
    /// found, if there is no listing, or, where threads are asked for, if
    /// the threads of a process cannot be had.
    pub fn new<F: Fn(ProcessID) -> Result<Vec<ThreadEntry>, String>>(
        pid: i32,
        found: bool,
        listing: Result<Vec<ProcessEntry>, String>,
        threads: Threads,
        list: &F,
    ) -> (r: Result<ProcessTree, BuildError>)
        requires
            found && threads.0 ==> (listing matches Ok(entries) ==> accepts(
                list,
                preorder(built(entries@, ProcessID(pid))),
            )),
        ensures
            made(ProcessID(pid), found, listing, threads, list, r),
    {
        let root = ProcessID(pid);
        if !found {
            return Err(BuildError::Root(root));
        }
        match listing {
            Err(message) => Err(BuildError::Listing(message)),
            Ok(entries) => {
                let mut tree = ProcessTree::build(root, &entries);
                if threads.0 {
                    match tree.add_threads(list) {
                        Err(e) => Err(e),
                        Ok(()) => Ok(tree),
                    }
                } else {
                    Ok(tree)
                }
            },
        }
    }
}

} // verus!
