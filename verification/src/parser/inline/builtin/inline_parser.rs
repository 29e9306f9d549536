//! The core rule that replaces [InlineRoot] nodes with the inline nodes
//! parsed from their content.
use vstd::prelude::*;
use crate::node::{Node, NodeValue, children_are_parsed, lemma_node_is_parsed, lemma_nodes_are_parsed, lemma_same_trees, node_is_parsed, nodes_are_parsed, same_tree, same_trees};
use crate::parser::{CoreRuleKind, InlineRuleKind, MarkdownIt};
use crate::parser::inline::{entries_of, map_range, parse_inline, plain_content, shortcut_link_content};
use crate::generics::inline::full_link::holds_label_text;
use crate::common::utils::byte_offset;
use crate::references::Reference;
use crate::references::ReferenceMap;
use crate::parser::inline::scan::{inline_tokens, nodes_toks, lemma_nodes_toks};

verus! {

/// Temporary node which gets replaced with inline nodes when
/// [InlineParserRule] is called.
pub struct InlineRoot {
    pub content: String,
    pub mapping: Vec<(usize, usize)>,
}

/// Position of the first block parser rule at or after `i`.
pub open spec fn block_rule_index(core: Seq<CoreRuleKind>, i: int) -> Option<int>
    decreases core.len() - i,
{
    if i < 0 || i >= core.len() {
        None
    } else if core[i] == CoreRuleKind::BlockParser {
        Some(i)
    } else {
        block_rule_index(core, i + 1)
    }
}

/// The core rules with the inline parser rule inserted right after the
/// block parser rule, or first when there is none.
pub open spec fn with_inline_rule(core: Seq<CoreRuleKind>) -> Seq<CoreRuleKind> {
    match block_rule_index(core, 0) {
        Some(i) => core.insert(i + 1, CoreRuleKind::InlineParser),
        None => core.insert(0, CoreRuleKind::InlineParser),
    }
}

proof fn lemma_block_rule_index(core: Seq<CoreRuleKind>, i: int)
    requires
        0 <= i,
    ensures
        block_rule_index(core, i) matches Some(j) ==> i <= j < core.len(),
    decreases core.len() - i,
{
    if i < core.len() && core[i] != CoreRuleKind::BlockParser {
        lemma_block_rule_index(core, i + 1);
    }
}

/// Adds the inline parser rule to the core rules, after the block parser
/// and before every other rule.
pub fn add(md: &mut MarkdownIt)
    ensures
        final(md).core@ == with_inline_rule(old(md).core@),
        final(md).inline == old(md).inline,
{
    proof {
        lemma_block_rule_index(md.core@, 0);
    }
    let mut i: usize = 0;
    while i < md.core.len()
        invariant
            md.core@ == old(md).core@,
            md.inline == old(md).inline,
            i <= md.core@.len(),
            block_rule_index(md.core@, 0) == block_rule_index(md.core@, i as int),
        decreases md.core@.len() - i,
    {
        if md.core[i] == CoreRuleKind::BlockParser {
            md.core.insert(i + 1, CoreRuleKind::InlineParser);
            return;
        }
        i = i + 1;
    }
    md.core.insert(0, CoreRuleKind::InlineParser);
}

/// The core rule that parses inline content.
pub struct InlineParserRule;

impl InlineParserRule {
    /// Replaces every [InlineRoot] node of the document, at any depth, by
    /// the inline nodes parsed from its content, using the link reference
    /// definitions held by the root. `root` must be a document root. Every
    /// other node keeps its place, value and source position (see
    /// [expanded]): empty content leaves nothing, plain text one text
    /// node, and `[label]` naming a definition of the root one link node
    /// (see [inline_run]). A tree without inline content is left as it is, so running the
    /// rule twice gives what running it once gives.
    pub fn run(root: &mut Node, md: &MarkdownIt)
        requires
            old(root).value is Root,
        ensures
            final(root).value == old(root).value,
            final(root).srcmap == old(root).srcmap,
            node_is_parsed(*final(root)),
            expanded(md.inline.rules@, root_entries(old(root).value), old(root).children@, final(root).children@),
            node_is_parsed(*old(root)) ==> same_tree(*final(root), *old(root)),
    {
        let mut value = NodeValue::Empty;
        std::mem::swap(&mut root.value, &mut value);
        let references = match value {
            NodeValue::Root { references } => references,
            _ => None,
        };
        let mut children: Vec<Node> = Vec::new();
        std::mem::swap(&mut root.children, &mut children);
        assert(children@ == old(root).children@);
        let walked = walk_children(children, md, references.as_ref());
        root.children = walked;
        root.value = NodeValue::Root { references };
        proof {
            lemma_node_is_parsed(*root);
            if node_is_parsed(*old(root)) {
                assert(nodes_are_parsed(old(root).children@));
                assert(same_trees(root.children@, old(root).children@));
            }
        }
    }
}

/// How the nodes of an expansion line up: `ends[i]` is where the output
/// nodes that stand for the `i`-th input node end, and `below[i]` tells the
/// same of the children of that node.
pub struct Expansion {
    pub ends: Seq<int>,
    pub below: Seq<Expansion>,
}

/// `out[start..]` is what the content of `ir` is parsed into: the nodes
/// that tokenizing it gives (see [inline_tokens]); in particular nothing
/// for empty content; one text node with the
/// content when no character of it can start a token of the `rules`; and
/// for content `[label]` naming a definition among `entries`, one link node
/// with that definition, the label text and the source range that the
/// mapping of `ir` gives the whole content.
pub open spec fn inline_run(
    rules: Seq<InlineRuleKind>,
    entries: Option<Seq<(String, Reference)>>,
    ir: InlineRoot,
    out: Seq<Node>,
    start: int,
) -> bool {
    let content = ir.content@;
    &&& content.len() < usize::MAX / 4 ==> start <= out.len() && nodes_toks(out.subrange(start, out.len() as int))
        == inline_tokens(rules, entries, content, ir.mapping@)
    &&& content.len() == 0 ==> out.len() == start
    &&& (0 < content.len() && plain_content(rules, content)) ==> {
        &&& out.len() == start + 1
        &&& out[start].value matches NodeValue::Text { content: text } && text@ == content
    }
    &&& shortcut_link_content(rules, entries, content) matches Some(d) ==> {
        &&& out.len() == start + 1
        &&& out[start].value matches NodeValue::Link { prefix, url, title } && prefix == '\0' && url == Some(
            d.destination,
        ) && title == d.title
        &&& holds_label_text(out[start], content.subrange(1, content.len() - 1))
        &&& out[start].srcmap == map_range(ir.mapping@, 0, byte_offset(content, content.len() as int) as int)
    }
}

/// The entries of the reference definitions held by a document root.
pub open spec fn root_entries(v: NodeValue) -> Option<Seq<(String, Reference)>> {
    match v {
        NodeValue::Root { references: Some(refs) } => Some(refs.entries@),
        _ => None,
    }
}

/// `out` is `inp` expanded along `e`: each [InlineRoot] node replaced by a
/// run of parsed nodes (see [inline_run]), and every other node kept in its
/// place with its value and source position, its children expanded in the
/// same way.
pub open spec fn expanded_by(
    rules: Seq<InlineRuleKind>,
    entries: Option<Seq<(String, Reference)>>,
    inp: Seq<Node>,
    out: Seq<Node>,
    e: Expansion,
) -> bool
    decreases inp,
{
    if inp.len() == 0 {
        out.len() == 0 && e.ends.len() == 0 && e.below.len() == 0
    } else {
        let n = inp.len() - 1;
        let x = inp[n];
        let start = if n == 0 {
            0
        } else {
            e.ends[n - 1]
        };
        let front = Expansion { ends: e.ends.subrange(0, n), below: e.below.subrange(0, n) };
        &&& e.ends.len() == inp.len()
        &&& e.below.len() == inp.len()
        &&& e.ends[n] == out.len()
        &&& 0 <= start <= out.len()
        &&& expanded_by(rules, entries, inp.subrange(0, n), out.subrange(0, start), front)
        &&& if x.value is InlineRoot {
            &&& forall|i: int| start <= i < out.len() ==> #[trigger] node_is_parsed(out[i])
            &&& x.value matches NodeValue::InlineRoot(ir) && inline_run(rules, entries, ir, out, start)
        } else {
            proof {
                assert(decreases_to!(inp => inp[n]));
                assert(decreases_to!(inp[n] => inp[n].children));
                assert(decreases_to!(inp[n].children => inp[n].children@));
            }
            &&& out.len() == start + 1
            &&& out[start].value == x.value
            &&& out[start].srcmap == x.srcmap
            &&& expanded_by(rules, entries, x.children@, out[start].children@, e.below[n])
        }
    }
}

/// `out` is `inp` with each [InlineRoot] node replaced by a run of parsed
/// nodes (see [inline_run]), and every other node kept in its place with
/// its value and source position, its children expanded in the same way.
pub open spec fn expanded(
    rules: Seq<InlineRuleKind>,
    entries: Option<Seq<(String, Reference)>>,
    inp: Seq<Node>,
    out: Seq<Node>,
) -> bool {
    exists|e: Expansion| #[trigger] expanded_by(rules, entries, inp, out, e)
}

/// Parses the inline content found in `children` and below: each
/// [InlineRoot] is replaced in place by the nodes parsed from its content,
/// and every other node is walked in turn.
fn walk_children(children: Vec<Node>, md: &MarkdownIt, references: Option<&ReferenceMap>) -> (r: Vec<Node>)
    ensures
        forall|i: int| 0 <= i < r@.len() ==> #[trigger] node_is_parsed(r@[i]),
        nodes_are_parsed(children@) ==> same_trees(r@, children@),
        expanded(md.inline.rules@, entries_of(references), children@, r@),
    decreases children@,
{
    let ghost all = children@;
    proof {
        lemma_nodes_are_parsed(all);
    }
    let mut rest = children;
    let mut out: Vec<Node> = Vec::new();
    let ghost mut k: int = 0;
    let ghost mut ex = Expansion { ends: Seq::empty(), below: Seq::empty() };
    assert(expanded_by(md.inline.rules@, entries_of(references), all.subrange(0, 0), out@, ex));
    while rest.len() > 0
        invariant
            all == children@,
            0 <= k <= all.len(),
            rest@ == all.subrange(k, all.len() as int),
            forall|i: int| 0 <= i < out@.len() ==> #[trigger] node_is_parsed(out@[i]),
            nodes_are_parsed(all) ==> forall|i: int| 0 <= i < all.len() ==> #[trigger] node_is_parsed(all[i]),
            nodes_are_parsed(all) ==> out@.len() == k && forall|i: int| 0 <= i < k ==> #[trigger] same_tree(out@[i], all[i]),
            expanded_by(md.inline.rules@, entries_of(references), all.subrange(0, k), out@, ex),
        decreases all.len() - k,
    {
        let ghost ex0 = ex;
        proof {
            if k > 0 {
                assert(all.subrange(0, k)[k - 1] == all[k - 1]);
            }
            assert(ex0.ends.len() == k && ex0.below.len() == k);
        }
        let child = rest.remove(0);
        assert(child == all[k]);
        proof {
            k = k + 1;
        }
        let Node { value, children: grandchildren, srcmap } = child;
        match value {
            NodeValue::InlineRoot(inline_root) => {
                let InlineRoot { content, mapping } = inline_root;
                proof {
                    if nodes_are_parsed(all) {
                        assert(node_is_parsed(all[k - 1]));
                    }
                }
                let holder = Node {
                    value: NodeValue::InlineRoot(InlineRoot { content: String::new(), mapping: Vec::new() }),
                    children: Vec::new(),
                    srcmap,
                };
                let parsed = parse_inline(md, content, mapping, holder, references);
                let mut produced = parsed.children;
                let ghost before = out@;
                let ghost prod = produced@;
                out.append(&mut produced);
                assert forall|i: int| 0 <= i < out@.len() implies #[trigger] node_is_parsed(out@[i]) by {
                    if i >= before.len() {
                        assert(out@[i] == prod[i - before.len()]);
                    }
                }
                proof {
                    ex = Expansion {
                        ends: ex0.ends.push(out@.len() as int),
                        below: ex0.below.push(Expansion { ends: Seq::empty(), below: Seq::empty() }),
                    };
                    assert(out@.subrange(0, before.len() as int) =~= before);
                    assert(out@.subrange(before.len() as int, out@.len() as int) =~= prod);
                    assert(ex.below.subrange(0, k - 1) =~= ex0.below);
                    extend_expansion(md.inline.rules@, entries_of(references), all, k, before, out@, ex0, ex);
                }
            },
            other => {
                assert(decreases_to!(all => all[k - 1]));
                assert(all[k - 1].children@ == grandchildren@);
                assert(decreases_to!(all[k - 1] => all[k - 1].children));
                assert(decreases_to!(all[k - 1].children => all[k - 1].children@));
                assert(decreases_to!(all => grandchildren@));
                let walked = walk_children(grandchildren, md, references);
                let node = Node { value: other, children: walked, srcmap };
                proof {
                    lemma_node_is_parsed(node);
                }
                let ghost before = out@;
                out.push(node);
                proof {
                    let c = choose|c: Expansion| expanded_by(md.inline.rules@, entries_of(references), grandchildren@, walked@, c);
                    ex = Expansion { ends: ex0.ends.push(out@.len() as int), below: ex0.below.push(c) };
                    assert(out@[before.len() as int] == node);
                    assert(out@.subrange(0, before.len() as int) =~= before);
                    assert(ex.below.subrange(0, k - 1) =~= ex0.below);
                    extend_expansion(md.inline.rules@, entries_of(references), all, k, before, out@, ex0, ex);
                    if nodes_are_parsed(all) {
                        assert(node_is_parsed(all[k - 1]));
                        assert(nodes_are_parsed(grandchildren@));
                        assert(same_tree(node, all[k - 1]));
                        assert forall|i: int| 0 <= i < k implies #[trigger] same_tree(out@[i], all[i]) by {
                            if i < k - 1 {
                                assert(out@[i] == before[i]);
                            }
                        }
                    }
                }
            },
        }
    }
    proof {
        lemma_same_trees(out@, all);
        assert(all.subrange(0, k) =~= all);
    }
    out
}

/// One more input node: when the nodes before it expand to `before` along
/// `e0` and the node stands for `out[before.len()..]`, all of them expand
/// to `out` along `e`.
proof fn extend_expansion(
    rules: Seq<InlineRuleKind>,
    entries: Option<Seq<(String, Reference)>>,
    all: Seq<Node>,
    k: int,
    before: Seq<Node>,
    out: Seq<Node>,
    e0: Expansion,
    e: Expansion,
)
    requires
        1 <= k <= all.len(),
        expanded_by(rules, entries, all.subrange(0, k - 1), before, e0),
        before.len() <= out.len(),
        out.subrange(0, before.len() as int) == before,
        e.ends == e0.ends.push(out.len() as int),
        e.below.len() == e0.below.len() + 1,
        e.below.subrange(0, k - 1) == e0.below,
        all[k - 1].value is InlineRoot ==> forall|i: int| before.len() <= i < out.len() ==> #[trigger] node_is_parsed(out[i]),
        all[k - 1].value matches NodeValue::InlineRoot(ir) ==> inline_run(rules, entries, ir, out, before.len() as int),
        !(all[k - 1].value is InlineRoot) ==> {
            &&& out.len() == before.len() + 1
            &&& out[before.len() as int].value == all[k - 1].value
            &&& out[before.len() as int].srcmap == all[k - 1].srcmap
            &&& expanded_by(rules, entries, all[k - 1].children@, out[before.len() as int].children@, e.below[k - 1])
        },
    ensures
        expanded_by(rules, entries, all.subrange(0, k), out, e),
{
    let inp = all.subrange(0, k);
    let n = k - 1;
    assert(inp[n] == all[k - 1]);
    assert(inp.subrange(0, n) =~= all.subrange(0, k - 1));
    assert(e0.ends.len() == k - 1);
    assert(e0.below.len() == k - 1);
    assert(e.ends.subrange(0, n) =~= e0.ends);
    assert(e.below.subrange(0, n) =~= e0.below);
    let start = if n == 0 {
        0
    } else {
        e.ends[n - 1]
    };
    if n > 0 {
        assert(e.ends[n - 1] == e0.ends[n - 1]);
        assert(e0.ends[n - 1] == before.len());
    } else {
        assert(before.len() == 0);
    }
    assert(start == before.len());
    assert(Expansion { ends: e.ends.subrange(0, n), below: e.below.subrange(0, n) } == e0);
}

} // verus!
