//! The walks over a process tree: one that changes every process, one that
//! draws every process. Both go on when a single process fails.

use crate::tree::term::{
    deeper, display, displayed, new_tree, outline, plain, push_leaf, set_multiline, OutlineNode,
};
use crate::tree::{
    lemma_levels_len, lemma_levels_shift, lemma_shapes, levels, levels_all, preorder,
    preorder_all, shapes, ProcessTree, TreeShape,
};
use crate::text::strings;
use crate::util::pid::ProcessID;
use vstd::prelude::*;

verus! {

/// `f` can be called on each of `ids`.
pub open spec fn accepts<R, F: Fn(ProcessID) -> R>(f: &F, ids: Seq<ProcessID>) -> bool {
    forall|i: int| 0 <= i < ids.len() ==> call_requires(f, (#[trigger] ids[i],))
}

/// `outs` holds, for each of `ids` in turn, what a call of `f` on it gave.
pub open spec fn answers<R, F: Fn(ProcessID) -> R>(
    f: &F,
    ids: Seq<ProcessID>,
    outs: Seq<R>,
) -> bool {
    &&& outs.len() == ids.len()
    &&& forall|i: int| 0 <= i < ids.len() ==> call_ensures(f, (ids[i],), #[trigger] outs[i])
}

/// The walk over the first trees of a row is the beginning of the walk over
/// the row.
pub proof fn lemma_preorder_all_take(ts: Seq<TreeShape>, k: int)
    requires
        0 <= k <= ts.len(),
    ensures
        preorder_all(ts.take(k)).is_prefix_of(preorder_all(ts)),
        k < ts.len() ==> preorder_all(ts.take(k + 1)) == preorder_all(ts.take(k)) + preorder(
            ts[k],
        ),
        levels_all(ts.take(k), 1).is_prefix_of(levels_all(ts, 1)),
        k < ts.len() ==> levels_all(ts.take(k + 1), 1) == levels_all(ts.take(k), 1) + levels(
            ts[k],
            1,
        ),
    decreases ts.len(),
{
    if k == ts.len() {
        assert(ts.take(k) =~= ts);
    } else {
        lemma_preorder_all_take(ts.drop_last(), k);
        assert(ts.drop_last().take(k) =~= ts.take(k));
        assert(ts.take(k + 1).drop_last() =~= ts.take(k));
        assert(ts.take(k + 1).last() == ts[k]);
    }
}

/// Every node of a child is a node of the tree.
pub proof fn lemma_child_nodes(t: TreeShape, i: int, id: ProcessID)
    requires
        0 <= i < t.children.len(),
        preorder(t.children[i]).contains(id),
    ensures
        preorder(t).contains(id),
{
    let kids = t.children;
    lemma_preorder_all_take(kids, i);
    lemma_preorder_all_take(kids, i + 1);
    let j = choose|j: int| 0 <= j < preorder(kids[i]).len() && preorder(kids[i])[j] == id;
    let done = preorder_all(kids.take(i)).len();
    assert(preorder_all(kids.take(i + 1))[done + j] == id);
    assert(preorder_all(kids)[done + j] == id);
    assert(preorder(t)[1 + done + j] == id);
}

/// The texts of the failures among `outs`, in their order.
pub open spec fn failure_texts(outs: Seq<Result<(), String>>) -> Seq<Seq<char>>
    decreases outs.len(),
{
    if outs.len() == 0 {
        Seq::empty()
    } else {
        match outs.last() {
            Err(e) => failure_texts(outs.drop_last()).push(e@),
            Ok(_) => failure_texts(outs.drop_last()),
        }
    }
}

/// The texts of the failures among the outcomes of a walk, in the order of
/// the walk: what is to be reported.
pub fn failures(outcomes: &Vec<Result<(), String>>) -> (texts: Vec<String>)
    ensures
        strings(texts@) == failure_texts(outcomes@),
{
    let mut texts: Vec<String> = Vec::new();
    let mut i: usize = 0;
    assert(strings(texts@) =~= failure_texts(outcomes@.take(0)));
    while i < outcomes.len()
        invariant
            i <= outcomes.len(),
            strings(texts@) == failure_texts(outcomes@.take(i as int)),
        decreases outcomes.len() - i,
    {
        proof {
            assert(outcomes@.take(i + 1).drop_last() =~= outcomes@.take(i as int));
            assert(outcomes@.take(i + 1).last() == outcomes@[i as int]);
        }
        match &outcomes[i] {
            Err(e) => {
                let ghost before = texts@;
                let copy = e.clone();
                texts.push(copy);
                assert(strings(texts@) =~= strings(before).push(e@));
            },
            Ok(_) => {},
        }
        i += 1;
    }
    assert(outcomes@.take(outcomes.len() as int) =~= outcomes@);
    texts
}

/// The text that stands for what a payload gave: the payload, or the text
/// of its error in its place.
pub open spec fn shown(r: Result<String, String>) -> Seq<char> {
    match r {
        Ok(s) => s@,
        Err(e) => e@,
    }
}

/// The outline of a drawn tree whose nodes stand at `depths` and show
/// `results`: every node takes all lines of its text.
pub open spec fn drawing(depths: Seq<nat>, results: Seq<Result<String, String>>) -> Seq<
    OutlineNode,
> {
    Seq::new(depths.len(), |i: int| (depths[i], shown(results[i]), true))
}

/// `out` is a drawing of the tree `t` with the payload `f`: node for node
/// in the order of a walk, each at its depth and with what `f` gave for it.
pub open spec fn draws<F: Fn(ProcessID) -> Result<String, String>>(
    t: TreeShape,
    f: &F,
    out: Seq<OutlineNode>,
) -> bool {
    exists|results: Seq<Result<String, String>>|
        #![auto]
        answers(f, preorder(t), results) && out == drawing(levels(t, 0), results)
}

/// `text` is the tree `t` drawn with the payload `f` and written out.
pub open spec fn rendered<F: Fn(ProcessID) -> Result<String, String>>(
    t: TreeShape,
    f: &F,
    text: Seq<char>,
) -> bool {
    exists|nodes: Seq<OutlineNode>| #![auto] draws(t, f, nodes) && text == displayed(nodes)
}

impl ProcessTree {
    /// Appends to `out` what `f` gives for every node under and with this
    /// one.
    fn visit<F: Fn(ProcessID) -> Result<(), String>>(
        &self,
        f: &F,
        out: &mut Vec<Result<(), String>>,
    )
        requires
            accepts(f, preorder(self@)),
        ensures
            final(out)@.len() == old(out)@.len() + preorder(self@).len(),
            final(out)@.take(old(out)@.len() as int) == old(out)@,
            answers(f, preorder(self@), final(out)@.skip(old(out)@.len() as int)),
        decreases self,
    {
        let ghost base = out@.len() as int;
        let ghost kids = shapes(self.children@);
        let ghost ids = preorder(self@);
        proof {
            lemma_shapes(self.children@);
            assert(ids[0] == self.root);
        }
        let r = f(self.root);
        out.push(r);
        let mut i: usize = 0;
        proof {
            assert(kids.take(0) =~= Seq::<TreeShape>::empty());
            assert(out@.take(base) =~= old(out)@);
        }
        while i < self.children.len()
            invariant
                i <= self.children.len(),
                base == old(out)@.len(),
                kids == shapes(self.children@),
                kids.len() == self.children@.len(),
                forall|j: int| 0 <= j < kids.len() ==> (#[trigger] kids[j]) == self.children@[j]@,
                ids == preorder(self@),
                ids == seq![self.root] + preorder_all(kids),
                accepts(f, ids),
                out@.len() == base + 1 + preorder_all(kids.take(i as int)).len(),
                out@.take(base) == old(out)@,
                answers(f, seq![self.root] + preorder_all(kids.take(i as int)), out@.skip(base)),
            decreases self.children.len() - i,
        {
            let ghost done = preorder_all(kids.take(i as int));
            let ghost mine = preorder(kids[i as int]);
            let ghost before = out@;
            proof {
                lemma_preorder_all_take(kids, i as int);
                lemma_preorder_all_take(kids, i + 1);
                assert forall|j: int| 0 <= j < mine.len() implies call_requires(
                    f,
                    (#[trigger] mine[j],),
                ) by {
                    assert(mine[j] == preorder_all(kids.take(i + 1))[done.len() + j]);
                    assert(mine[j] == ids[1 + done.len() + j]);
                }
            }
            self.children[i].visit(f, out);
            proof {
                let now = out@.skip(base);
                let walked = seq![self.root] + preorder_all(kids.take(i + 1));
                assert(out@.take(base) =~= old(out)@) by {
                    assert(out@.take(before.len() as int).take(base) =~= out@.take(base));
                }
                assert forall|j: int| 0 <= j < walked.len() implies call_ensures(
                    f,
                    (walked[j],),
                    #[trigger] now[j],
                ) by {
                    if j < 1 + done.len() {
                        assert(now[j] == out@.take(before.len() as int)[base + j]);
                        assert(now[j] == before.skip(base)[j]);
                        assert(walked[j] == (seq![self.root] + done)[j]);
                    } else {
                        let k = j - 1 - done.len();
                        assert(now[j] == out@.skip(before.len() as int)[k]);
                        assert(walked[j] == mine[k]);
                    }
                }
            }
            i += 1;
        }
        proof {
            assert(kids.take(kids.len() as int) =~= kids);
        }
    }

    /// Recursively modifies the process tree: calls `f` on every node, a
    /// node before its children and these in their stored order, and hands
    /// back what each call gave, in that order. A call that fails stops
    /// nothing.
    pub fn modify<F: Fn(ProcessID) -> Result<(), String>>(&self, f: &F) -> (outcomes: Vec<
        Result<(), String>,
    >)
        requires
            accepts(f, preorder(self@)),
        ensures
            answers(f, preorder(self@), outcomes@),
    {
        let mut outcomes: Vec<Result<(), String>> = Vec::new();
        self.visit(f, &mut outcomes);
        assert(outcomes@.skip(0) =~= outcomes@);
        outcomes
    }
}


impl ProcessTree {
    /// Draws the tree, and names what the payload gave for each node.
    fn draw<F: Fn(ProcessID) -> Result<String, String>>(&self, payload: &F) -> (r: (
        termtree::Tree<String>,
        Ghost<Seq<Result<String, String>>>,
    ))
        requires
            accepts(payload, preorder(self@)),
        ensures
            answers(payload, preorder(self@), r.1@),
            outline(r.0) == drawing(levels(self@, 0), r.1@),
            plain(r.0),
        decreases self,
    {
        let ghost kids = shapes(self.children@);
        let ghost ids = preorder(self@);
        proof {
            lemma_shapes(self.children@);
            assert(ids[0] == self.root);
        }
        let first = payload(self.root);
        let ghost mut results: Seq<Result<String, String>> = seq![first];
        let p = match first {
            Ok(payload) => payload,
            Err(e) => e,
        };
        let mut tree = new_tree(p);
        set_multiline(&mut tree, true);
        proof {
            assert(kids.take(0) =~= Seq::<TreeShape>::empty());
            assert(outline(tree) =~= drawing(seq![0nat] + levels_all(kids.take(0), 1), results));
        }
        let mut i: usize = 0;
        while i < self.children.len()
            invariant
                i <= self.children.len(),
                kids == shapes(self.children@),
                kids.len() == self.children@.len(),
                forall|j: int| 0 <= j < kids.len() ==> (#[trigger] kids[j]) == self.children@[j]@,
                ids == preorder(self@),
                ids == seq![self.root] + preorder_all(kids),
                accepts(payload, ids),
                plain(tree),
                answers(payload, seq![self.root] + preorder_all(kids.take(i as int)), results),
                outline(tree) == drawing(
                    seq![0nat] + levels_all(kids.take(i as int), 1),
                    results,
                ),
                levels_all(kids.take(i as int), 1).len() == preorder_all(kids.take(i as int)).len(),
            decreases self.children.len() - i,
        {
            let ghost done = preorder_all(kids.take(i as int));
            let ghost mine = preorder(kids[i as int]);
            let ghost before = results;
            let ghost old_depths = seq![0nat] + levels_all(kids.take(i as int), 1);
            proof {
                lemma_preorder_all_take(kids, i as int);
                lemma_preorder_all_take(kids, i + 1);
                assert forall|j: int| 0 <= j < mine.len() implies call_requires(
                    payload,
                    (#[trigger] mine[j],),
                ) by {
                    assert(mine[j] == preorder_all(kids.take(i + 1))[done.len() + j]);
                    assert(mine[j] == ids[1 + done.len() + j]);
                }
            }
            let (leaf, Ghost(under)) = self.children[i].draw(payload);
            push_leaf(&mut tree, leaf);
            proof {
                results = before + under;
                let child = kids[i as int];
                let walked = seq![self.root] + preorder_all(kids.take(i + 1));
                lemma_levels_len(child, 0);
                lemma_levels_len(child, 1);
                lemma_levels_shift(child, 0);
                assert forall|j: int| 0 <= j < walked.len() implies call_ensures(
                    payload,
                    (walked[j],),
                    #[trigger] results[j],
                ) by {
                    if j < 1 + done.len() {
                        assert(walked[j] == (seq![self.root] + done)[j]);
                    } else {
                        assert(walked[j] == mine[j - 1 - done.len()]);
                    }
                }
                assert(outline(tree) =~= drawing(
                    seq![0nat] + levels_all(kids.take(i + 1), 1),
                    results,
                )) by {
                    let new_depths = seq![0nat] + levels_all(kids.take(i + 1), 1);
                    assert(new_depths =~= old_depths + levels(child, 1));
                    assert(outline(tree) == drawing(old_depths, before) + deeper(
                        drawing(levels(child, 0), under),
                    ));
                }
            }
            i += 1;
        }
        proof {
            assert(kids.take(kids.len() as int) =~= kids);
        }
        (tree, Ghost(results))
    }

    /// Draws the tree for the terminal: a node for every process, in the
    /// order and shape of this tree. The text of a node is what `payload`
    /// gives for its process, or the text of the error where it fails; all
    /// lines of a text stay with its node. A payload that fails stops
    /// nothing.
    pub fn to_termtree<F: Fn(ProcessID) -> Result<String, String>>(&self, payload: &F) -> (out:
        termtree::Tree<String>)
        requires
            accepts(payload, preorder(self@)),
        ensures
            draws(self@, payload, outline(out)),
            plain(out),
    {
        let (out, Ghost(results)) = self.draw(payload);
        out
    }

    /// Draws the tree as text: `to_termtree`, written out line by line.
    pub fn render<F: Fn(ProcessID) -> Result<String, String>>(&self, payload: &F) -> (text:
        String)
        requires
            accepts(payload, preorder(self@)),
        ensures
            rendered(self@, payload, text@),
    {
        let tree = self.to_termtree(payload);
        display(&tree)
    }
}

/// `f` gives one text for each of `ids`, however often it is asked: it
/// has no effect that a later call could see.
pub open spec fn single_valued<F: Fn(ProcessID) -> Result<String, String>>(
    f: &F,
    ids: Seq<ProcessID>,
) -> bool {
    forall|i: int, a: Result<String, String>, b: Result<String, String>|
        0 <= i < ids.len() && #[trigger] call_ensures(f, (ids[i],), a) && #[trigger] call_ensures(
            f,
            (ids[i],),
            b,
        ) ==> shown(a) == shown(b)
}

/// Drawing a tree twice with a payload that gives one text for each
/// process gives the same nodes, and so the same text, both times.
pub proof fn lemma_draws_once<F: Fn(ProcessID) -> Result<String, String>>(
    t: TreeShape,
    f: &F,
    first: Seq<OutlineNode>,
    second: Seq<OutlineNode>,
)
    requires
        draws(t, f, first),
        draws(t, f, second),
        single_valued(f, preorder(t)),
    ensures
        first == second,
        displayed(first) == displayed(second),
{
    let a = choose|results: Seq<Result<String, String>>|
        #![auto]
        answers(f, preorder(t), results) && first == drawing(levels(t, 0), results);
    let b = choose|results: Seq<Result<String, String>>|
        #![auto]
        answers(f, preorder(t), results) && second == drawing(levels(t, 0), results);
    lemma_levels_len(t, 0);
    assert forall|i: int| 0 <= i < first.len() implies first[i] == second[i] by {
        assert(call_ensures(f, (preorder(t)[i],), a[i]));
        assert(call_ensures(f, (preorder(t)[i],), b[i]));
    }
    assert(first =~= second);
}


/// Rendering is idempotent: a tree rendered twice with a payload that gives
/// one text for each process comes out as the same text, character for
/// character.
pub proof fn lemma_render_once<F: Fn(ProcessID) -> Result<String, String>>(
    t: TreeShape,
    f: &F,
    first: Seq<char>,
    second: Seq<char>,
)
    requires
        rendered(t, f, first),
        rendered(t, f, second),
        single_valued(f, preorder(t)),
    ensures
        first == second,
{
    let a = choose|nodes: Seq<OutlineNode>| #![auto] draws(t, f, nodes) && first == displayed(nodes);
    let b = choose|nodes: Seq<OutlineNode>|
        #![auto]
        draws(t, f, nodes) && second == displayed(nodes);
    lemma_draws_once(t, f, a, b);
}

} // verus!
