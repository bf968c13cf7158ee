//! The parse tree that the grammar's parser delivers, as plain values: each
//! node carries the rule that matched, the text it matched, and its children in
//! order.

use vstd::prelude::*;

verus! {

/// The rules of the grammar that leave a node in the parse tree.
#[derive(Clone, Copy, Debug, PartialEq, Eq, Structural)]
pub enum Rule {
    /// The end of the input.
    Eoi,
    /// A top-level binding: its name, then its body.
    Decl,
    /// The name that a top-level binding introduces.
    Uid,
    /// A signed decimal literal.
    Int,
    /// A locally bound name.
    Name,
    /// A qualified name.
    Id,
    /// An application: the head, then the arguments.
    Call,
    /// A lambda: its parameters, then its body.
    Func,
    /// One parameter of a lambda; its only child carries the name.
    Param,
}

/// A node of the parse tree.
#[derive(Debug)]
pub struct Node {
    pub rule: Rule,
    pub text: String,
    pub children: Vec<Node>,
}

/// A node of the parse tree, as a mathematical value.
pub struct NodeView {
    pub rule: Rule,
    pub text: Seq<char>,
    pub children: Seq<NodeView>,
}

/// The mathematical value of a node: its rule, its text, and the values of its
/// children in order.
pub open spec fn node_view(node: Node) -> NodeView
    decreases node,
{
    NodeView {
        rule: node.rule,
        text: node.text@,
        children: Seq::new(
            node.children@.len(),
            |i: int|
                if 0 <= i < node.children@.len() {
                    node_view(node.children@[i])
                } else {
                    arbitrary()
                },
        ),
    }
}

impl View for Node {
    type V = NodeView;

    open spec fn view(&self) -> NodeView {
        node_view(*self)
    }
}

/// The views of a run of nodes.
pub open spec fn node_views(nodes: Seq<Node>) -> Seq<NodeView> {
    Seq::new(nodes.len(), |i: int| nodes[i]@)
}

/// The view of a node is made of the views of its children.
pub proof fn lemma_node_view(node: Node)
    ensures
        node@.rule == node.rule,
        node@.text == node.text@,
        node@.children == node_views(node.children@),
{
    assert(node@.rule == node.rule);
    assert(node.view().text == node.text@);
    assert(node@.children =~= node_views(node.children@));
}

/// Whether the node is anything but the end-of-input marker.
pub fn is_not_eoi(pair: &Node) -> (b: bool)
    ensures
        b == (pair@.rule != Rule::Eoi),
{
    pair.rule != Rule::Eoi
}

/// Whether the node is a parameter of a lambda.
pub fn is_param(pair: &Node) -> (b: bool)
    ensures
        b == (pair@.rule == Rule::Param),
{
    pair.rule == Rule::Param
}

} // verus!
