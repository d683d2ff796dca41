//! The tree of the `termtree` crate, which draws itself with branches on a
//! terminal: its declaration and what is taken for granted of its methods.

use vstd::prelude::*;

verus! {

/// `termtree::Tree`, held as an opaque value.
#[verifier::external_type_specification]
#[verifier::external_body]
#[verifier::reject_recursive_types(D)]
pub struct ExTree<D: std::fmt::Display>(termtree::Tree<D>);

/// One node of a drawn tree: how deep it stands under the root, its text,
/// and whether all lines of its text are indented.
pub type OutlineNode = (nat, Seq<char>, bool);

/// What a drawn tree holds: its nodes from the root down, each subtree
/// before the next one of the same parent, every node with its depth.
pub uninterp spec fn outline(t: termtree::Tree<String>) -> Seq<OutlineNode>;

/// No node of a drawn tree has branch glyphs of its own: all are drawn with
/// the glyphs that the crate starts with.
pub uninterp spec fn plain(t: termtree::Tree<String>) -> bool;

/// The text that `termtree` writes for a tree without glyphs of its own
/// that holds `nodes`: a line for the text of the root, then for every
/// other node its lines behind the branches that lead to it.
pub uninterp spec fn displayed(nodes: Seq<OutlineNode>) -> Seq<char>;

/// The nodes of `nodes`, each one level deeper.
pub open spec fn deeper(nodes: Seq<OutlineNode>) -> Seq<OutlineNode> {
    Seq::new(nodes.len(), |i: int| ((nodes[i].0 + 1) as nat, nodes[i].1, nodes[i].2))
}

/// `termtree::Tree::new` makes a tree of one node with the given text and
/// no leaves; lines after the first are not indented.
#[verifier::external_body]
pub(crate) fn new_tree(text: String) -> (t: termtree::Tree<String>)
    ensures
        outline(t) == seq![(0nat, text@, false)],
        plain(t),
{
    termtree::Tree::new(text)
}

/// `termtree::Tree::set_multiline` sets, for the root node alone, whether
/// all lines of its text are indented. Nothing else changes.
#[verifier::external_body]
pub(crate) fn set_multiline(t: &mut termtree::Tree<String>, yes: bool)
    ensures
        plain(*final(t)) == plain(*old(t)),
        outline(*final(t)).len() == outline(*old(t)).len(),
        outline(*old(t)).len() > 0 ==> outline(*final(t))[0] == (
            outline(*old(t))[0].0,
            outline(*old(t))[0].1,
            yes,
        ),
        forall|i: int|
            0 < i < outline(*old(t)).len() ==> (#[trigger] outline(*final(t))[i]) == outline(
                *old(t),
            )[i],
{
    t.set_multiline(yes);
}

/// `termtree::Tree::push` appends `leaf`, with all that stands under it, as
/// the last leaf of the root.
#[verifier::external_body]
pub(crate) fn push_leaf(t: &mut termtree::Tree<String>, leaf: termtree::Tree<String>)
    ensures
        outline(*final(t)) == outline(*old(t)) + deeper(outline(leaf)),
        plain(*final(t)) == (plain(*old(t)) && plain(leaf)),
{
    t.push(leaf);
}

/// The `Display` of `termtree::Tree` writes the tree as text. For a tree
/// without glyphs of its own the text depends on nothing but the nodes, so
/// it is named by them.
#[verifier::external_body]
pub(crate) fn display(t: &termtree::Tree<String>) -> (r: String)
    requires
        plain(*t),
    ensures
        r@ == displayed(outline(*t)),
{
    format!("{}", t)
}

} // verus!
