//! Syntax trees as plain values: what a parser found in one source file.

use crate::text::opt_text;
use vstd::prelude::*;

verus! {

/// One node of a syntax tree, with the nodes below it.
#[derive(Debug, PartialEq, Eq)]
pub struct SyntaxNode {
    /// The kind of the node, as the grammar names it.
    pub kind: String,
    /// Whether the node stands for a named rule of the grammar; the others
    /// are the keywords and punctuation of the source.
    pub named: bool,
    /// The field of its parent under which the node hangs, if any.
    pub field: Option<String>,
    /// The source text that the node spans.
    pub text: String,
    /// The nodes directly below, in source order.
    pub children: Vec<SyntaxNode>,
}

/// A syntax tree as a mathematical value.
pub struct SyntaxTree {
    pub kind: Seq<char>,
    pub named: bool,
    pub field: Option<Seq<char>>,
    pub text: Seq<char>,
    pub children: Seq<SyntaxTree>,
}

/// The tree that a node and the nodes below it stand for.
pub open spec fn tree_of(node: SyntaxNode) -> SyntaxTree
    decreases node, node.children@.len() + 1,
{
    SyntaxTree {
        kind: node.kind@,
        named: node.named,
        field: opt_text(node.field),
        text: node.text@,
        children: trees_upto(node, node.children@.len()),
    }
}

/// The trees of the first `upto` children of `node`.
pub open spec fn trees_upto(node: SyntaxNode, upto: nat) -> Seq<SyntaxTree>
    decreases node, upto,
{
    if upto == 0 || upto > node.children@.len() {
        Seq::empty()
    } else {
        trees_upto(node, (upto - 1) as nat).push(tree_of(node.children@[upto - 1]))
    }
}

impl View for SyntaxNode {
    type V = SyntaxTree;

    open spec fn view(&self) -> SyntaxTree {
        tree_of(*self)
    }
}

/// The trees of the first `upto` children are as many, each the view of its
/// child.
pub proof fn lemma_trees_upto(node: SyntaxNode, upto: nat)
    requires
        upto <= node.children@.len(),
    ensures
        trees_upto(node, upto).len() == upto,
        forall|i: int| 0 <= i < upto ==> #[trigger] trees_upto(node, upto)[i] == node.children@[i]@,
    decreases upto,
{
    if upto > 0 {
        lemma_trees_upto(node, (upto - 1) as nat);
    }
}

/// The view of a node holds the node's own values, and below it the views of
/// the node's children.
pub proof fn lemma_view(node: &SyntaxNode)
    ensures
        node@.kind == node.kind@,
        node@.named == node.named,
        node@.field == opt_text(node.field),
        node@.text == node.text@,
        node@.children.len() == node.children@.len(),
        forall|i: int|
            0 <= i < node.children@.len() ==> #[trigger] node@.children[i] == node.children@[i]@,
{
    lemma_trees_upto(*node, node.children@.len());
}

/// The views of a sequence of nodes.
pub open spec fn node_trees(nodes: Seq<SyntaxNode>) -> Seq<SyntaxTree> {
    Seq::new(nodes.len(), |i: int| nodes[i]@)
}

/// `tree` with one more child behind its children.
pub open spec fn with_last_child(tree: SyntaxTree, child: SyntaxTree) -> SyntaxTree {
    SyntaxTree { children: tree.children.push(child), ..tree }
}

/// A node that differs from another in having one more child has the view
/// of the other with the view of that child added.
pub proof fn lemma_view_with_child(before: &SyntaxNode, after: &SyntaxNode, child: &SyntaxNode)
    requires
        after.kind == before.kind,
        after.named == before.named,
        after.field == before.field,
        after.text == before.text,
        after.children@ == before.children@.push(*child),
    ensures
        after@ == with_last_child(before@, child@),
{
    lemma_view(before);
    lemma_view(after);
    assert(after@.children =~= before@.children.push(child@));
}

} // verus!
