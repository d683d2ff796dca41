//! The process tree: its assembly from a flat listing of processes, and the
//! walks over it.

pub mod modify;
pub mod shape;
pub mod show;
pub mod term;
pub mod threads;
pub mod walk;

use crate::util::pid::ProcessID;
use std::collections::HashMap;
use vstd::prelude::*;
use vstd::std_specs::hash::*;

verus! {

broadcast use group_hash_axioms;

/// Whether the threads of each process are made part of its tree.
#[derive(Clone, Copy, Debug)]
pub struct Threads(pub bool);

/// One row of a listing of processes: a process and its parent.
#[derive(Clone, Copy, Debug)]
pub struct ProcessEntry {
    pub pid: ProcessID,
    pub ppid: ProcessID,
}

/// A process tree.
#[derive(Debug)]
pub struct ProcessTree {
    /// The root process of this tree.
    pub root: ProcessID,
    /// The children of this tree.
    pub children: Vec<ProcessTree>,
}

/// The mathematical shape of a process tree.
pub struct TreeShape {
    pub root: ProcessID,
    pub children: Seq<TreeShape>,
}

/// The children of each parent that still waits to be attached.
pub type Groups = Map<i32, Seq<ProcessID>>;

/// A tree of one node.
pub open spec fn leaf(root: ProcessID) -> TreeShape {
    TreeShape { root, children: Seq::empty() }
}

/// The shapes of a row of trees.
pub open spec fn shapes(ts: Seq<ProcessTree>) -> Seq<TreeShape>
    decreases ts,
{
    if ts.len() == 0 {
        Seq::empty()
    } else {
        shapes(ts.drop_last()).push(ts.last()@)
    }
}

impl View for ProcessTree {
    type V = TreeShape;

    open spec fn view(&self) -> TreeShape
        decreases self,
    {
        TreeShape { root: self.root, children: shapes(self.children@) }
    }
}

/// The shapes of a row of trees, one by one.
pub proof fn lemma_shapes(ts: Seq<ProcessTree>)
    ensures
        shapes(ts).len() == ts.len(),
        forall|i: int| 0 <= i < ts.len() ==> (#[trigger] shapes(ts)[i]) == ts[i]@,
    decreases ts.len(),
{
    if ts.len() > 0 {
        lemma_shapes(ts.drop_last());
        assert(shapes(ts) == shapes(ts.drop_last()).push(ts.last()@));
    } else {
        assert(shapes(ts) == Seq::<TreeShape>::empty());
    }
}

/// The processes whose parent is `parent`, in the order of the listing.
pub open spec fn children_of(listing: Seq<ProcessEntry>, parent: ProcessID) -> Seq<ProcessID>
    decreases listing.len(),
{
    if listing.len() == 0 {
        Seq::empty()
    } else if listing.last().ppid == parent {
        children_of(listing.drop_last(), parent).push(listing.last().pid)
    } else {
        children_of(listing.drop_last(), parent)
    }
}

/// The listing grouped by parent: every parent that has a child, with its
/// children in the order of the listing.
pub open spec fn grouped(listing: Seq<ProcessEntry>) -> Groups {
    Map::new(
        |k: i32| children_of(listing, ProcessID(k)).len() > 0,
        |k: i32| children_of(listing, ProcessID(k)),
    )
}

/// The tree that grows under `root` out of `groups`, and the groups that
/// are left. A node takes the group of its identifier out of `groups` and
/// makes it its children; they grow one after the other, each out of what
/// the ones before it left. So a group is attached once, under the first
/// node that asks for it. `depth` bounds how deep the tree gets; the number
/// of groups is enough.
pub open spec fn grown(groups: Groups, root: ProcessID, depth: nat) -> (TreeShape, Groups)
    decreases depth, 0nat,
{
    if depth > 0 && groups.contains_key(root.0) {
        let (children, left) = grown_all(groups.remove(root.0), groups[root.0], (depth - 1) as nat);
        (TreeShape { root, children }, left)
    } else {
        (leaf(root), groups)
    }
}

/// The trees that grow under `roots`, one after the other, and the groups
/// that are left.
pub open spec fn grown_all(groups: Groups, roots: Seq<ProcessID>, depth: nat) -> (
    Seq<TreeShape>,
    Groups,
)
    decreases depth, roots.len() + 1,
{
    if roots.len() == 0 {
        (Seq::empty(), groups)
    } else {
        let (first, left) = grown(groups, roots[0], depth);
        let (others, rest) = grown_all(left, roots.skip(1), depth);
        (seq![first] + others, rest)
    }
}

/// The tree of `root` in a listing of processes.
pub open spec fn built(listing: Seq<ProcessEntry>, root: ProcessID) -> TreeShape {
    grown(grouped(listing), root, listing.len()).0
}

/// The groups that a hash map holds.
pub open spec fn groups_of(m: Map<i32, Vec<ProcessID>>) -> Groups {
    Map::new(|k: i32| m.contains_key(k), |k: i32| m[k]@)
}

/// Groups a listing of processes by parent.
fn group(listing: &Vec<ProcessEntry>) -> (procs: HashMap<i32, Vec<ProcessID>>)
    ensures
        groups_of(procs@) == grouped(listing@),
        procs@.dom().len() <= listing.len(),
{
    let mut procs: HashMap<i32, Vec<ProcessID>> = HashMap::new();
    let mut i: usize = 0;
    assert(groups_of(procs@) =~= grouped(listing@.take(0)));
    while i < listing.len()
        invariant
            i <= listing.len(),
            groups_of(procs@) == grouped(listing@.take(i as int)),
            procs@.dom().len() <= i,
        decreases listing.len() - i,
    {
        let entry = listing[i];
        let key = entry.ppid.0;
        let ghost before = procs@;
        let ghost done = listing@.take(i as int);
        let ghost next = listing@.take(i + 1);
        proof {
            assert(next.drop_last() =~= done);
            assert(next.last() == entry);
        }
        let mut children = match procs.remove(&key) {
            Some(children) => children,
            None => Vec::new(),
        };
        proof {
            assert(children@ == children_of(done, ProcessID(key))) by {
                if before.contains_key(key) {
                    assert(groups_of(before)[key] == before[key]@);
                } else {
                    assert(!groups_of(before).contains_key(key));
                }
            }
        }
        children.push(entry.pid);
        procs.insert(key, children);
        proof {
            assert(procs@ =~= before.insert(key, children));
            assert(groups_of(procs@) =~= grouped(next)) by {
                assert forall|k: i32| #[trigger]
                    groups_of(procs@).contains_key(k) == grouped(next).contains_key(k) by {
                    if k != key {
                        assert(groups_of(before).contains_key(k) == grouped(done).contains_key(k));
                    }
                }
                assert forall|k: i32| #[trigger]
                    groups_of(procs@).contains_key(k) implies groups_of(procs@)[k] == grouped(
                    next,
                )[k] by {
                    if k != key {
                        assert(groups_of(before).contains_key(k));
                        assert(groups_of(before)[k] == grouped(done)[k]);
                    }
                }
            }
            if before.contains_key(key) {
                assert(before.insert(key, children).dom() =~= before.dom());
            } else {
                assert(before.insert(key, children).dom() =~= before.dom().insert(key));
            }
        }
        i += 1;
    }
    assert(listing@.take(listing.len() as int) =~= listing@);
    procs
}


impl ProcessTree {
    /// A tree of one node.
    pub fn from(root: ProcessID) -> (tree: ProcessTree)
        ensures
            tree@ == leaf(root),
            tree.root == root,
            tree.children@.len() == 0,
    {
        ProcessTree { root, children: Vec::new() }
    }

    /// Recursively moves children from `procs` into the tree.
    fn convert(&mut self, procs: &mut HashMap<i32, Vec<ProcessID>>, Ghost(depth): Ghost<nat>)
        requires
            old(self).children@.len() == 0,
            depth >= old(procs)@.dom().len(),
        ensures
            (final(self)@, groups_of(final(procs)@)) == grown(
                groups_of(old(procs)@),
                old(self).root,
                depth,
            ),
            final(procs)@.dom().subset_of(old(procs)@.dom()),
        decreases depth,
    {
        let ghost before = procs@;
        let key = self.root.0;
        if let Some(children) = procs.remove(&key) {
            let ghost kids = children@;
            let ghost start = groups_of(procs@);
            let ghost below = (depth - 1) as nat;
            proof {
                assert(before.dom().contains(key));
                assert(procs@ == before.remove(key));
                assert(start =~= groups_of(before).remove(key));
                assert(kids == groups_of(before)[key]);
                assert(kids.skip(0) =~= kids);
                assert(shapes(self.children@) + grown_all(start, kids, below).0 =~= grown_all(
                    start,
                    kids,
                    below,
                ).0);
            }
            let mut i: usize = 0;
            while i < children.len()
                invariant
                    i <= children.len(),
                    kids == children@,
                    depth > 0,
                    below == depth - 1,
                    below >= procs@.dom().len(),
                    procs@.dom().subset_of(before.dom()),
                    self.root == old(self).root,
                    grown_all(start, kids, below).0 == shapes(self.children@) + grown_all(
                        groups_of(procs@),
                        kids.skip(i as int),
                        below,
                    ).0,
                    grown_all(start, kids, below).1 == grown_all(
                        groups_of(procs@),
                        kids.skip(i as int),
                        below,
                    ).1,
                decreases children.len() - i,
            {
                let ghost now = groups_of(procs@);
                let ghost dom_now = procs@.dom();
                let ghost row = self.children@;
                let mut child = ProcessTree::from(children[i]);
                child.convert(procs, Ghost(below));
                proof {
                    assert(kids.skip(i as int)[0] == kids[i as int]);
                    assert(kids.skip(i as int).skip(1) =~= kids.skip(i + 1));
                    vstd::set_lib::lemma_len_subset(procs@.dom(), dom_now);
                    assert(shapes(row.push(child)) == shapes(row).push(child@)) by {
                        assert(row.push(child).drop_last() =~= row);
                    }
                    assert(shapes(row).push(child@) + grown_all(
                        groups_of(procs@),
                        kids.skip(i + 1),
                        below,
                    ).0 =~= shapes(row) + (seq![child@] + grown_all(
                        groups_of(procs@),
                        kids.skip(i + 1),
                        below,
                    ).0));
                }
                self.children.push(child);
                i += 1;
            }
            proof {
                assert(shapes(self.children@) + Seq::<TreeShape>::empty() =~= shapes(
                    self.children@,
                ));
            }
        } else {
            assert(!groups_of(before).contains_key(key));
            assert(shapes(self.children@) =~= Seq::<TreeShape>::empty());
        }
    }

    /// The tree of `root` in a listing of processes: under each node stand
    /// the processes that name it as their parent, in the order of the
    /// listing.
    pub fn build(root: ProcessID, listing: &Vec<ProcessEntry>) -> (tree: ProcessTree)
        ensures
            tree@ == built(listing@, root),
    {
        let mut procs = group(listing);
        let mut tree = ProcessTree::from(root);
        tree.convert(&mut procs, Ghost(listing@.len()));
        tree
    }
}


/// The nodes of a tree in the order of a walk: a node first, then the
/// subtree of each child, in their stored order.
pub open spec fn preorder(t: TreeShape) -> Seq<ProcessID>
    decreases t,
{
    seq![t.root] + preorder_all(t.children)
}

/// The nodes of a row of trees in the order of a walk.
pub open spec fn preorder_all(ts: Seq<TreeShape>) -> Seq<ProcessID>
    decreases ts,
{
    if ts.len() == 0 {
        Seq::empty()
    } else {
        preorder_all(ts.drop_last()) + preorder(ts.last())
    }
}

/// How deep each node stands, in the order of a walk, for a tree whose
/// root stands at `depth`.
pub open spec fn levels(t: TreeShape, depth: nat) -> Seq<nat>
    decreases t,
{
    seq![depth] + levels_all(t.children, depth + 1)
}

/// How deep each node of a row of trees stands, in the order of a walk.
pub open spec fn levels_all(ts: Seq<TreeShape>, depth: nat) -> Seq<nat>
    decreases ts,
{
    if ts.len() == 0 {
        Seq::empty()
    } else {
        levels_all(ts.drop_last(), depth) + levels(ts.last(), depth)
    }
}

/// A walk meets as many depths as nodes.
pub proof fn lemma_levels_len(t: TreeShape, depth: nat)
    ensures
        levels(t, depth).len() == preorder(t).len(),
    decreases t, 1nat,
{
    lemma_levels_all_len(t.children, depth + 1);
}

/// A walk over a row of trees meets as many depths as nodes.
pub proof fn lemma_levels_all_len(ts: Seq<TreeShape>, depth: nat)
    ensures
        levels_all(ts, depth).len() == preorder_all(ts).len(),
    decreases ts, 0nat,
{
    if ts.len() > 0 {
        lemma_levels_all_len(ts.drop_last(), depth);
        lemma_levels_len(ts.last(), depth);
    }
}

/// A tree that stands one level deeper has every node one level deeper.
pub proof fn lemma_levels_shift(t: TreeShape, depth: nat)
    ensures
        levels(t, depth + 1).len() == levels(t, depth).len(),
        forall|i: int|
            0 <= i < levels(t, depth).len() ==> (#[trigger] levels(t, depth + 1)[i]) == levels(
                t,
                depth,
            )[i] + 1,
    decreases t, 1nat,
{
    lemma_levels_all_shift(t.children, depth + 1);
}

/// A row of trees that stands one level deeper has every node one level
/// deeper.
pub proof fn lemma_levels_all_shift(ts: Seq<TreeShape>, depth: nat)
    ensures
        levels_all(ts, depth + 1).len() == levels_all(ts, depth).len(),
        forall|i: int|
            0 <= i < levels_all(ts, depth).len() ==> (#[trigger] levels_all(ts, depth + 1)[i])
                == levels_all(ts, depth)[i] + 1,
    decreases ts, 0nat,
{
    if ts.len() > 0 {
        lemma_levels_all_shift(ts.drop_last(), depth);
        lemma_levels_shift(ts.last(), depth);
    }
}

} // verus!
