//! The syntax tree produced by the parser.
use vstd::prelude::*;
use crate::parser::inline::builtin::inline_parser::InlineRoot;
use crate::references::ReferenceMap;

verus! {

/// What a node stands for.
pub enum NodeValue {
    /// Root of a document; holds the link reference definitions found in it.
    Root { references: Option<ReferenceMap> },
    /// Inline content that is yet to be parsed into inline nodes.
    InlineRoot(InlineRoot),
    /// Plain text.
    Text { content: String },
    /// A link-like structure: `prefix` is `'\0'` for `[text](href)`, and the
    /// prefix character otherwise (`!` for images).
    Link { prefix: char, url: Option<String>, title: Option<String> },
    /// A span delimited by `length` repetitions of `marker` on each side;
    /// its only child is the text between the delimiters.
    CodeSpan { marker: char, length: usize },
    /// A node that has been taken apart.
    Empty,
}

/// A node of the syntax tree with its children and the part of the source
/// it was parsed from.
pub struct Node {
    pub value: NodeValue,
    pub children: Vec<Node>,
    pub srcmap: Option<(usize, usize)>,
}

impl Node {
    /// A node with the given value, no children and no source position.
    pub fn new(value: NodeValue) -> (n: Node)
        ensures
            n.value == value,
            n.children@.len() == 0,
            n.srcmap is None,
    {
        Node { value, children: Vec::new(), srcmap: None }
    }

    /// A node with no value, no children and no source position.
    pub fn empty() -> (n: Node)
        ensures
            n.value is Empty,
            n.children@.len() == 0,
            n.srcmap is None,
    {
        Node { value: NodeValue::Empty, children: Vec::new(), srcmap: None }
    }
}

/// No node of the tree rooted at `n`, `n` included, is unparsed inline content.
pub open spec fn node_is_parsed(n: Node) -> bool
    decreases n,
{
    &&& !(n.value is InlineRoot)
    &&& nodes_are_parsed(n.children@)
}

/// No node of the trees rooted at the nodes of `s` is unparsed inline content.
pub open spec fn nodes_are_parsed(s: Seq<Node>) -> bool
    decreases s,
{
    s.len() == 0 || (node_is_parsed(s[0]) && nodes_are_parsed(s.subrange(1, s.len() as int)))
}

/// No node below `n` is unparsed inline content.
pub open spec fn children_are_parsed(n: Node) -> bool {
    forall|i: int| 0 <= i < n.children@.len() ==> #[trigger] node_is_parsed(n.children@[i])
}

/// [nodes_are_parsed] holds exactly when each node of the sequence is parsed.
pub proof fn lemma_nodes_are_parsed(s: Seq<Node>)
    ensures
        nodes_are_parsed(s) <==> forall|i: int| 0 <= i < s.len() ==> #[trigger] node_is_parsed(s[i]),
    decreases s.len(),
{
    assert(nodes_are_parsed(s) == (s.len() == 0 || (node_is_parsed(s[0]) && nodes_are_parsed(s.subrange(1, s.len() as int)))));
    if s.len() > 0 {
        let t = s.subrange(1, s.len() as int);
        lemma_nodes_are_parsed(t);
        if forall|i: int| 0 <= i < s.len() ==> #[trigger] node_is_parsed(s[i]) {
            assert forall|i: int| 0 <= i < t.len() implies #[trigger] node_is_parsed(t[i]) by {
                assert(t[i] == s[i + 1]);
            }
        }
        if nodes_are_parsed(s) {
            assert forall|i: int| 0 <= i < s.len() implies #[trigger] node_is_parsed(s[i]) by {
                if i > 0 {
                    assert(s[i] == t[i - 1]);
                }
            }
        }
    }
}

/// A node that is not unparsed inline content and whose children are
/// parsed is parsed.
pub proof fn lemma_node_is_parsed(n: Node)
    requires
        !(n.value is InlineRoot),
        children_are_parsed(n),
    ensures
        node_is_parsed(n),
{
    lemma_nodes_are_parsed(n.children@);
}

/// The children of a parsed node are parsed.
pub proof fn lemma_parsed_children(n: Node)
    requires
        node_is_parsed(n),
    ensures
        children_are_parsed(n),
{
    lemma_nodes_are_parsed(n.children@);
}

/// `a` and `b` are the same tree: equal values and source positions, and
/// children that are pairwise the same trees.
pub open spec fn same_tree(a: Node, b: Node) -> bool
    decreases a,
{
    &&& a.value == b.value
    &&& a.srcmap == b.srcmap
    &&& same_trees(a.children@, b.children@)
}

/// `s` and `t` have the same length and hold the same trees at each index.
pub open spec fn same_trees(s: Seq<Node>, t: Seq<Node>) -> bool
    decreases s,
{
    &&& s.len() == t.len()
    &&& (s.len() == 0 || (same_tree(s[0], t[0]) && same_trees(
        s.subrange(1, s.len() as int),
        t.subrange(1, t.len() as int),
    )))
}

/// [same_trees] holds exactly when the sequences have the same length and
/// hold the same tree at each index.
pub proof fn lemma_same_trees(s: Seq<Node>, t: Seq<Node>)
    ensures
        same_trees(s, t) <==> (s.len() == t.len() && forall|i: int| 0 <= i < s.len() ==> #[trigger] same_tree(s[i], t[i])),
    decreases s.len(),
{
    assert(same_trees(s, t) == (s.len() == t.len() && (s.len() == 0 || (same_tree(s[0], t[0]) && same_trees(
        s.subrange(1, s.len() as int),
        t.subrange(1, t.len() as int),
    )))));
    if s.len() > 0 && s.len() == t.len() {
        let s1 = s.subrange(1, s.len() as int);
        let t1 = t.subrange(1, t.len() as int);
        lemma_same_trees(s1, t1);
        if forall|i: int| 0 <= i < s.len() ==> #[trigger] same_tree(s[i], t[i]) {
            assert forall|i: int| 0 <= i < s1.len() implies #[trigger] same_tree(s1[i], t1[i]) by {
                assert(s1[i] == s[i + 1] && t1[i] == t[i + 1]);
            }
        }
        if same_trees(s, t) {
            assert forall|i: int| 0 <= i < s.len() implies #[trigger] same_tree(s[i], t[i]) by {
                if i > 0 {
                    assert(s[i] == s1[i - 1] && t[i] == t1[i - 1]);
                }
            }
        }
    }
}

} // verus!
