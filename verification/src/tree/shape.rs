//! What holds of the shape of every tree that is built from a listing.

use crate::tree::walk::lemma_child_nodes;
use crate::tree::{
    built, children_of, grouped, grown, grown_all, leaf, preorder, Groups, ProcessEntry, TreeShape,
};
use crate::util::pid::ProcessID;
use vstd::prelude::*;

verus! {

/// The roots of a row of trees.
pub open spec fn roots(ts: Seq<TreeShape>) -> Seq<ProcessID> {
    Seq::new(ts.len(), |i: int| ts[i].root)
}

/// The tree `t` follows `listing`: the children of a node are the
/// processes that name it as their parent, in the order of the listing,
/// or, where these were attached to a node before it, it has none.
pub open spec fn follows(t: TreeShape, listing: Seq<ProcessEntry>) -> bool
    decreases t,
{
    &&& t.children.len() == 0 || roots(t.children) == children_of(listing, t.root)
    &&& forall|i: int|
        0 <= i < t.children.len() ==> follows(#[trigger] t.children[i], listing)
}

/// Every group of `groups` is a group of `listing`.
pub open spec fn within(groups: Groups, listing: Seq<ProcessEntry>) -> bool {
    forall|k: i32| #[trigger]
        groups.contains_key(k) ==> groups[k] == children_of(listing, ProcessID(k))
}

/// A tree that grows out of groups of a listing follows the listing, and
/// leaves groups of the listing.
pub proof fn lemma_grown_follows(
    groups: Groups,
    root: ProcessID,
    depth: nat,
    listing: Seq<ProcessEntry>,
)
    requires
        within(groups, listing),
    ensures
        grown(groups, root, depth).0.root == root,
        follows(grown(groups, root, depth).0, listing),
        within(grown(groups, root, depth).1, listing),
    decreases depth, 0nat,
{
    if depth > 0 && groups.contains_key(root.0) {
        let rest = groups.remove(root.0);
        assert(within(rest, listing)) by {
            assert forall|k: i32| #[trigger] rest.contains_key(k) implies rest[k] == children_of(
                listing,
                ProcessID(k),
            ) by {
                assert(groups.contains_key(k));
            }
        }
        lemma_grown_all_follows(rest, groups[root.0], (depth - 1) as nat, listing);
        assert(ProcessID(root.0) == root);
    }
}

/// The trees that grow out of groups of a listing stand under the roots
/// they were asked for, follow the listing, and leave groups of the
/// listing.
pub proof fn lemma_grown_all_follows(
    groups: Groups,
    ids: Seq<ProcessID>,
    depth: nat,
    listing: Seq<ProcessEntry>,
)
    requires
        within(groups, listing),
    ensures
        roots(grown_all(groups, ids, depth).0) == ids,
        forall|i: int|
            0 <= i < ids.len() ==> follows(#[trigger] grown_all(groups, ids, depth).0[i], listing),
        within(grown_all(groups, ids, depth).1, listing),
    decreases depth, ids.len() + 1,
{
    if ids.len() > 0 {
        lemma_grown_follows(groups, ids[0], depth, listing);
        let (first, left) = grown(groups, ids[0], depth);
        lemma_grown_all_follows(left, ids.skip(1), depth, listing);
        let (others, rest) = grown_all(left, ids.skip(1), depth);
        let all = grown_all(groups, ids, depth).0;
        assert(all == seq![first] + others);
        assert(roots(others) == ids.skip(1));
        assert(roots(all) =~= ids) by {
            assert forall|i: int| 0 <= i < ids.len() implies roots(all)[i] == ids[i] by {
                if i > 0 {
                    assert(all[i] == others[i - 1]);
                    assert(roots(others)[i - 1] == ids.skip(1)[i - 1]);
                }
            }
        }
        assert forall|i: int| 0 <= i < ids.len() implies follows(#[trigger] all[i], listing) by {
            if i > 0 {
                assert(all[i] == others[i - 1]);
            }
        }
    } else {
        assert(roots(grown_all(groups, ids, depth).0) =~= ids);
    }
}

/// The shape of a built tree: its root is the process asked for; the
/// children of the root are the processes that name it as their parent,
/// in the order of the listing; and below, every node has the processes
/// that name it as their parent, or none.
pub proof fn lemma_built_shape(listing: Seq<ProcessEntry>, root: ProcessID)
    ensures
        built(listing, root).root == root,
        roots(built(listing, root).children) == children_of(listing, root),
        follows(built(listing, root), listing),
{
    let groups = grouped(listing);
    lemma_grown_follows(groups, root, listing.len(), listing);
    assert(ProcessID(root.0) == root);
    if groups.contains_key(root.0) {
        assert(children_of(listing, root).len() > 0);
        assert(listing.len() > 0);
        lemma_grown_all_follows(
            groups.remove(root.0),
            groups[root.0],
            (listing.len() - 1) as nat,
            listing,
        );
    } else {
        assert(children_of(listing, root).len() == 0);
        assert(roots(built(listing, root).children) =~= children_of(listing, root));
    }
}


/// No process is listed twice.
pub open spec fn listed_once(listing: Seq<ProcessEntry>) -> bool {
    forall|i: int, j: int| 0 <= i < j < listing.len() ==> listing[i].pid != listing[j].pid
}

/// `groups` has a group for `k`, and the group has a place `i`.
pub open spec fn at(groups: Groups, k: i32, i: int) -> bool {
    groups.contains_key(k) && 0 <= i < groups[k].len()
}

/// No process stands at two places of `groups`.
pub open spec fn apart(groups: Groups) -> bool {
    forall|k1: i32, i1: int, k2: i32, i2: int|
        #![trigger groups[k1][i1], groups[k2][i2]]
        at(groups, k1, i1) && at(groups, k2, i2) && groups[k1][i1] == groups[k2][i2] ==> k1 == k2
            && i1 == i2
}

/// Every child of `parent` in a listing is a process of the listing with
/// that parent.
pub proof fn lemma_children_listed(listing: Seq<ProcessEntry>, parent: ProcessID, i: int)
    requires
        0 <= i < children_of(listing, parent).len(),
    ensures
        exists|j: int|
            0 <= j < listing.len() && (#[trigger] listing[j]).pid == children_of(
                listing,
                parent,
            )[i] && listing[j].ppid == parent,
    decreases listing.len(),
{
    let before = listing.drop_last();
    if listing.last().ppid == parent && i == children_of(before, parent).len() {
        assert(listing[listing.len() - 1] == listing.last());
    } else {
        lemma_children_listed(before, parent, i);
        let j = choose|j: int|
            0 <= j < before.len() && (#[trigger] before[j]).pid == children_of(before, parent)[i]
                && before[j].ppid == parent;
        assert(listing[j] == before[j]);
    }
}

/// In the groups of a listing that names no process twice, no process
/// stands at two places.
pub proof fn lemma_grouped_apart(listing: Seq<ProcessEntry>)
    requires
        listed_once(listing),
    ensures
        apart(grouped(listing)),
    decreases listing.len(),
{
    let all = grouped(listing);
    if listing.len() > 0 {
        let before = listing.drop_last();
        let last = listing.last();
        assert(listed_once(before)) by {
            assert forall|i: int, j: int| 0 <= i < j < before.len() implies before[i].pid
                != before[j].pid by {
                assert(before[i] == listing[i]);
                assert(before[j] == listing[j]);
            }
        }
        lemma_grouped_apart(before);
        let earlier = grouped(before);
        assert forall|k1: i32, i1: int, k2: i32, i2: int|
            #![trigger all[k1][i1], all[k2][i2]]
            at(all, k1, i1) && at(all, k2, i2) && all[k1][i1] == all[k2][i2] implies k1 == k2
                && i1 == i2 by {
            let left_parent = ProcessID(k1);
            let right_parent = ProcessID(k2);
            let left_is_last = last.ppid == left_parent && i1 == children_of(
                before,
                left_parent,
            ).len();
            let right_is_last = last.ppid == right_parent && i2 == children_of(
                before,
                right_parent,
            ).len();
            if left_is_last && right_is_last {
            } else if left_is_last {
                lemma_children_listed(before, right_parent, i2);
                let j = choose|j: int|
                    0 <= j < before.len() && (#[trigger] before[j]).pid == children_of(
                        before,
                        right_parent,
                    )[i2] && before[j].ppid == right_parent;
                assert(listing[j] == before[j]);
                assert(listing[listing.len() - 1] == last);
                assert(false);
            } else if right_is_last {
                lemma_children_listed(before, left_parent, i1);
                let j = choose|j: int|
                    0 <= j < before.len() && (#[trigger] before[j]).pid == children_of(
                        before,
                        left_parent,
                    )[i1] && before[j].ppid == left_parent;
                assert(listing[j] == before[j]);
                assert(listing[listing.len() - 1] == last);
                assert(false);
            } else {
                assert(at(earlier, k1, i1));
                assert(at(earlier, k2, i2));
                assert(earlier[k1][i1] == all[k1][i1]);
                assert(earlier[k2][i2] == all[k2][i2]);
            }
        }
    }
}

/// A listing has no more groups than processes.
pub proof fn lemma_grouped_finite(listing: Seq<ProcessEntry>)
    ensures
        grouped(listing).dom().finite(),
        grouped(listing).dom().len() <= listing.len(),
    decreases listing.len(),
{
    if listing.len() == 0 {
        assert(grouped(listing).dom() =~= Set::<i32>::empty());
    } else {
        let before = listing.drop_last();
        lemma_grouped_finite(before);
        let more = grouped(before).dom().insert(listing.last().ppid.0);
        assert(grouped(listing).dom() =~= more) by {
            assert forall|k: i32| grouped(listing).dom().contains(k) == more.contains(k) by {
                assert(ProcessID(listing.last().ppid.0) == listing.last().ppid);
                if k != listing.last().ppid.0 {
                    assert(ProcessID(k) != listing.last().ppid);
                }
            }
        }
    }
}


/// Every group of `groups` is a group of `all`.
pub open spec fn part_of(groups: Groups, all: Groups) -> bool {
    forall|k: i32| #[trigger]
        groups.contains_key(k) ==> all.contains_key(k) && groups[k] == all[k]
}

/// The group of every process that still waits in `groups` waits there
/// too, if the process has one; but for the process `top`.
pub open spec fn kept(groups: Groups, all: Groups, top: ProcessID) -> bool {
    forall|k: i32, i: int|
        #![trigger groups[k][i]]
        at(groups, k, i) && groups[k][i] != top && all.contains_key(groups[k][i].0)
            ==> groups.contains_key(groups[k][i].0)
}

/// The process `x` has not been met: its group, if it has one, waits in
/// `groups`, and it waits in no group itself. Nothing is asked of `top`.
pub open spec fn fresh(groups: Groups, all: Groups, x: ProcessID, top: ProcessID) -> bool {
    x != top ==> {
        &&& all.contains_key(x.0) ==> groups.contains_key(x.0)
        &&& forall|k: i32, i: int| #![trigger groups[k][i]] at(groups, k, i) ==> groups[k][i] != x
    }
}

/// A group that was taken out of `groups` and is not in `left` is the
/// group of one of `ids`, or of a process of another such group.
pub open spec fn taken(groups: Groups, left: Groups, ids: Seq<ProcessID>) -> bool {
    forall|k: i32| #[trigger]
        groups.contains_key(k) && !left.contains_key(k) ==> {
            ||| exists|j: int| 0 <= j < ids.len() && #[trigger] ids[j] == ProcessID(k)
            ||| exists|k2: i32, i: int|
                #![trigger groups[k2][i]]
                at(groups, k2, i) && !left.contains_key(k2) && groups[k2][i] == ProcessID(k)
        }
}

/// Every node of `t` that is not the process `top` has as children the
/// processes that name it as their parent, in the order of the listing.
pub open spec fn complete_but(t: TreeShape, listing: Seq<ProcessEntry>, top: ProcessID) -> bool
    decreases t,
{
    &&& t.root != top ==> roots(t.children) == children_of(listing, t.root)
    &&& forall|i: int|
        0 <= i < t.children.len() ==> complete_but(#[trigger] t.children[i], listing, top)
}

/// A tree that grows under a process that has not been met, out of groups
/// in which no process stands twice, is complete.
pub proof fn lemma_grown_complete(
    listing: Seq<ProcessEntry>,
    groups: Groups,
    x: ProcessID,
    depth: nat,
    top: ProcessID,
)
    requires
        apart(grouped(listing)),
        part_of(groups, grouped(listing)),
        kept(groups, grouped(listing), top),
        fresh(groups, grouped(listing), x, top),
        groups.dom().finite(),
        depth >= groups.dom().len(),
    ensures
        grown(groups, x, depth).0.root == x,
        complete_but(grown(groups, x, depth).0, listing, top),
        part_of(grown(groups, x, depth).1, groups),
        grown(groups, x, depth).1.dom().finite(),
        grown(groups, x, depth).1.dom().len() <= groups.dom().len(),
        kept(grown(groups, x, depth).1, grouped(listing), top),
        taken(groups, grown(groups, x, depth).1, seq![x]),
    decreases depth, 0nat,
{
    let all = grouped(listing);
    assert(ProcessID(x.0) == x);
    if groups.contains_key(x.0) {
        assert(groups.dom().contains(x.0));
        assert(groups.dom().len() > 0);
        let rest = groups.remove(x.0);
        let ids = groups[x.0];
        let below = (depth - 1) as nat;
        assert(ids == children_of(listing, x));
        assert(kept(rest, all, top)) by {
            assert forall|k: i32, i: int|
                #![trigger rest[k][i]]
                at(rest, k, i) && rest[k][i] != top && all.contains_key(
                    rest[k][i].0,
                ) implies rest.contains_key(rest[k][i].0) by {
                assert(at(groups, k, i));
                assert(groups[k][i] == rest[k][i]);
                if rest[k][i].0 == x.0 {
                    assert(ProcessID(rest[k][i].0) == rest[k][i]);
                    assert(rest[k][i] == x);
                }
            }
        }
        assert forall|j: int| 0 <= j < ids.len() implies fresh(rest, all, #[trigger] ids[j], top) by {
            let c = ids[j];
            if c != top {
                assert(at(groups, x.0, j));
                assert(groups[x.0][j] == c);
                assert(ProcessID(c.0) == c);
                assert(c != x);
                assert forall|k: i32, i: int|
                    #![trigger rest[k][i]]
                    at(rest, k, i) implies rest[k][i] != c by {
                    assert(at(all, k, i));
                    assert(at(all, x.0, j));
                    assert(all[k][i] == rest[k][i]);
                    assert(all[x.0][j] == c);
                }
            }
        }
        assert forall|j1: int, j2: int| 0 <= j1 < j2 < ids.len() implies ids[j1] != ids[j2] by {
            assert(at(all, x.0, j1));
            assert(at(all, x.0, j2));
            assert(all[x.0][j1] == ids[j1]);
            assert(all[x.0][j2] == ids[j2]);
        }
        assert(part_of(rest, all));
        lemma_grown_all_complete(listing, rest, ids, below, top);
        lemma_grown_all_follows(rest, ids, below, listing);
        let left = grown_all(rest, ids, below).1;
        assert(part_of(left, groups));
        vstd::set_lib::lemma_len_subset(left.dom(), groups.dom());
        assert(taken(groups, left, seq![x])) by {
            assert forall|k: i32| #[trigger]
                groups.contains_key(k) && !left.contains_key(k) implies {
                ||| exists|j: int| 0 <= j < seq![x].len() && #[trigger] seq![x][j] == ProcessID(k)
                ||| exists|k2: i32, i: int|
                    #![trigger groups[k2][i]]
                    at(groups, k2, i) && !left.contains_key(k2) && groups[k2][i] == ProcessID(k)
            } by {
                if k == x.0 {
                    assert(seq![x][0] == ProcessID(k));
                } else {
                    assert(rest.contains_key(k));
                    if exists|j: int| 0 <= j < ids.len() && #[trigger] ids[j] == ProcessID(k) {
                        let j = choose|j: int| 0 <= j < ids.len() && #[trigger] ids[j] == ProcessID(k);
                        assert(at(groups, x.0, j));
                        assert(groups[x.0][j] == ProcessID(k));
                    } else {
                        let (k2, i) = choose|k2: i32, i: int|
                            #![trigger rest[k2][i]]
                            at(rest, k2, i) && !left.contains_key(k2) && rest[k2][i] == ProcessID(k);
                        assert(at(groups, k2, i));
                        assert(groups[k2][i] == ProcessID(k));
                    }
                }
            }
        }
    } else {
        if x != top {
            assert(!all.contains_key(x.0));
            assert(roots(leaf(x).children) =~= children_of(listing, x));
        }
    }
}

/// The trees that grow under processes that have not been met, out of
/// groups in which no process stands twice, are complete.
pub proof fn lemma_grown_all_complete(
    listing: Seq<ProcessEntry>,
    groups: Groups,
    ids: Seq<ProcessID>,
    depth: nat,
    top: ProcessID,
)
    requires
        apart(grouped(listing)),
        part_of(groups, grouped(listing)),
        kept(groups, grouped(listing), top),
        forall|j: int| 0 <= j < ids.len() ==> fresh(groups, grouped(listing), #[trigger] ids[j], top),
        forall|j1: int, j2: int| 0 <= j1 < j2 < ids.len() ==> ids[j1] != ids[j2],
        groups.dom().finite(),
        depth >= groups.dom().len(),
    ensures
        grown_all(groups, ids, depth).0.len() == ids.len(),
        forall|j: int|
            0 <= j < ids.len() ==> complete_but(
                #[trigger] grown_all(groups, ids, depth).0[j],
                listing,
                top,
            ),
        part_of(grown_all(groups, ids, depth).1, groups),
        grown_all(groups, ids, depth).1.dom().finite(),
        kept(grown_all(groups, ids, depth).1, grouped(listing), top),
        taken(groups, grown_all(groups, ids, depth).1, ids),
    decreases depth, ids.len() + 1,
{
    let all = grouped(listing);
    if ids.len() > 0 {
        let x = ids[0];
        let rest = ids.skip(1);
        lemma_grown_complete(listing, groups, x, depth, top);
        let (first, mid) = grown(groups, x, depth);
        assert(part_of(mid, all));
        assert forall|j: int| 0 <= j < rest.len() implies fresh(mid, all, #[trigger] rest[j], top) by {
            let c = rest[j];
            assert(c == ids[j + 1]);
            assert(fresh(groups, all, ids[j + 1], top));
            if c != top {
                assert(ProcessID(c.0) == c);
                if all.contains_key(c.0) && !mid.contains_key(c.0) {
                    assert(groups.contains_key(c.0));
                    if exists|j0: int| 0 <= j0 < seq![x].len() && #[trigger] seq![x][j0] == ProcessID(c.0) {
                        assert(x == c);
                        assert(ids[0] != ids[j + 1]);
                    } else {
                        let (k2, i) = choose|k2: i32, i: int|
                            #![trigger groups[k2][i]]
                            at(groups, k2, i) && !mid.contains_key(k2) && groups[k2][i] == ProcessID(
                                c.0,
                            );
                        assert(groups[k2][i] != c);
                    }
                    assert(false);
                }
                assert forall|k: i32, i: int|
                    #![trigger mid[k][i]]
                    at(mid, k, i) implies mid[k][i] != c by {
                    assert(at(groups, k, i));
                    assert(groups[k][i] == mid[k][i]);
                }
            }
        }
        assert forall|j1: int, j2: int| 0 <= j1 < j2 < rest.len() implies rest[j1] != rest[j2] by {
            assert(rest[j1] == ids[j1 + 1]);
            assert(rest[j2] == ids[j2 + 1]);
        }
        lemma_grown_all_complete(listing, mid, rest, depth, top);
        let (others, left) = grown_all(mid, rest, depth);
        let all_trees = grown_all(groups, ids, depth).0;
        assert(all_trees == seq![first] + others);
        assert forall|j: int| 0 <= j < ids.len() implies complete_but(
            #[trigger] all_trees[j],
            listing,
            top,
        ) by {
            if j > 0 {
                assert(all_trees[j] == others[j - 1]);
            }
        }
        assert(part_of(left, groups));
        assert(taken(groups, left, ids)) by {
            assert forall|k: i32| #[trigger]
                groups.contains_key(k) && !left.contains_key(k) implies {
                ||| exists|j: int| 0 <= j < ids.len() && #[trigger] ids[j] == ProcessID(k)
                ||| exists|k2: i32, i: int|
                    #![trigger groups[k2][i]]
                    at(groups, k2, i) && !left.contains_key(k2) && groups[k2][i] == ProcessID(k)
            } by {
                if !mid.contains_key(k) {
                    if exists|j0: int| 0 <= j0 < seq![x].len() && #[trigger] seq![x][j0] == ProcessID(k) {
                        assert(ids[0] == ProcessID(k));
                    } else {
                        let (k2, i) = choose|k2: i32, i: int|
                            #![trigger groups[k2][i]]
                            at(groups, k2, i) && !mid.contains_key(k2) && groups[k2][i] == ProcessID(k);
                        assert(!left.contains_key(k2));
                    }
                } else {
                    if exists|j: int| 0 <= j < rest.len() && #[trigger] rest[j] == ProcessID(k) {
                        let j = choose|j: int| 0 <= j < rest.len() && #[trigger] rest[j] == ProcessID(k);
                        assert(ids[j + 1] == ProcessID(k));
                    } else {
                        let (k2, i) = choose|k2: i32, i: int|
                            #![trigger mid[k2][i]]
                            at(mid, k2, i) && !left.contains_key(k2) && mid[k2][i] == ProcessID(k);
                        assert(at(groups, k2, i));
                        assert(groups[k2][i] == ProcessID(k));
                    }
                }
            }
        }
    }
}


/// Every node of `t` has as children the processes that name it as their
/// parent, in the order of the listing.
pub open spec fn complete(t: TreeShape, listing: Seq<ProcessEntry>) -> bool
    decreases t,
{
    &&& roots(t.children) == children_of(listing, t.root)
    &&& forall|i: int| 0 <= i < t.children.len() ==> complete(#[trigger] t.children[i], listing)
}

/// A tree that is complete but for a process that is none of its nodes is
/// complete.
pub proof fn lemma_complete(t: TreeShape, listing: Seq<ProcessEntry>, top: ProcessID)
    requires
        complete_but(t, listing, top),
        !preorder(t).contains(top),
    ensures
        complete(t, listing),
    decreases t,
{
    assert(preorder(t)[0] == t.root);
    assert forall|i: int| 0 <= i < t.children.len() implies complete(
        #[trigger] t.children[i],
        listing,
    ) by {
        if preorder(t.children[i]).contains(top) {
            lemma_child_nodes(t, i, top);
        }
        lemma_complete(t.children[i], listing, top);
    }
}

/// The tree of a listing that names no process twice: the children of the
/// root are the processes that name it as their parent, in the order of
/// the listing, and so are those of every node below that is not the root
/// process once more.
pub proof fn lemma_built_complete_but(listing: Seq<ProcessEntry>, root: ProcessID)
    requires
        listed_once(listing),
    ensures
        built(listing, root).root == root,
        roots(built(listing, root).children) == children_of(listing, root),
        forall|i: int|
            0 <= i < built(listing, root).children.len() ==> complete_but(
                #[trigger] built(listing, root).children[i],
                listing,
                root,
            ),
{
    lemma_grouped_apart(listing);
    lemma_grouped_finite(listing);
    lemma_grown_complete(listing, grouped(listing), root, listing.len(), root);
    lemma_built_shape(listing, root);
}

/// The tree of a listing that names no process twice is complete, where
/// the root process is not found once more below itself: every node has
/// as children the processes that name it as their parent, in the order
/// of the listing.
pub proof fn lemma_built_complete(listing: Seq<ProcessEntry>, root: ProcessID)
    requires
        listed_once(listing),
        forall|i: int|
            0 <= i < built(listing, root).children.len() ==> !preorder(
                #[trigger] built(listing, root).children[i],
            ).contains(root),
    ensures
        complete(built(listing, root), listing),
{
    lemma_built_complete_but(listing, root);
    let t = built(listing, root);
    assert forall|i: int| 0 <= i < t.children.len() implies complete(
        #[trigger] t.children[i],
        listing,
    ) by {
        lemma_complete(t.children[i], listing, root);
    }
}

} // verus!
