use markdown_it::generics::inline::full_link;
use markdown_it::node::{Node, NodeValue};
use markdown_it::parser::inline::builtin::inline_parser::{self, InlineParserRule, InlineRoot};
use markdown_it::parser::internals::syntax_base::generics::inline::code_pair;
use markdown_it::parser::MarkdownIt;
use markdown_it::references::ReferenceMap;

fn parser(nested: bool) -> MarkdownIt {
    let mut md = MarkdownIt::new();
    if nested {
        full_link::add::<true>(&mut md);
    } else {
        full_link::add::<false>(&mut md);
    }
    full_link::add_prefix::<false>(&mut md, '!');
    code_pair::add_with(&mut md, '`');
    inline_parser::add(&mut md);
    md
}

fn parse_with(md: &MarkdownIt, content: &str, references: Option<ReferenceMap>) -> Vec<Node> {
    let inline = Node::new(NodeValue::InlineRoot(InlineRoot {
        content: content.to_string(),
        mapping: vec![(0, 0)],
    }));
    let mut root = Node::new(NodeValue::Root { references });
    root.children.push(inline);
    InlineParserRule::run(&mut root, md);
    assert!(matches!(root.value, NodeValue::Root { .. }));
    root.children
}

fn parse(content: &str) -> Vec<Node> {
    parse_with(&parser(false), content, None)
}

fn is_text(n: &Node, s: &str) -> bool {
    matches!(&n.value, NodeValue::Text { content } if content == s) && n.children.is_empty()
}

fn is_link(n: &Node, prefix: char, url: Option<&str>, title: Option<&str>) -> bool {
    match &n.value {
        NodeValue::Link { prefix: p, url: u, title: t } => {
            *p == prefix && u.as_deref() == url && t.as_deref() == title
        }
        _ => false,
    }
}

#[test]
fn inline_link_with_title() {
    let nodes = parse("a [b](c \"d\") e");
    assert_eq!(nodes.len(), 3);
    assert!(is_text(&nodes[0], "a "));
    assert_eq!(nodes[0].srcmap, Some((0, 2)));
    assert!(is_link(&nodes[1], '\0', Some("c"), Some("d")));
    assert_eq!(nodes[1].srcmap, Some((2, 12)));
    assert_eq!(nodes[1].children.len(), 1);
    assert!(is_text(&nodes[1].children[0], "b"));
    assert_eq!(nodes[1].children[0].srcmap, Some((3, 4)));
    assert!(is_text(&nodes[2], " e"));
    assert_eq!(nodes[2].srcmap, Some((12, 14)));
}

#[test]
fn source_positions_follow_the_mapping() {
    let md = parser(false);
    let inline = Node::new(NodeValue::InlineRoot(InlineRoot {
        content: "x [y](z)".to_string(),
        mapping: vec![(0, 10)],
    }));
    let mut root = Node::new(NodeValue::Root { references: None });
    root.children.push(inline);
    InlineParserRule::run(&mut root, &md);
    assert_eq!(root.children.len(), 2);
    assert_eq!(root.children[0].srcmap, Some((10, 12)));
    assert_eq!(root.children[1].srcmap, Some((12, 18)));
}

#[test]
fn angle_destination_and_spaces() {
    let nodes = parse("[a](  <b c>  'd'  )");
    assert_eq!(nodes.len(), 1);
    assert!(is_link(&nodes[0], '\0', Some("b%20c"), Some("d")));
}

#[test]
fn empty_destination() {
    let nodes = parse("[a]()");
    assert_eq!(nodes.len(), 1);
    assert!(is_link(&nodes[0], '\0', Some(""), None));
    assert!(is_text(&nodes[0].children[0], "a"));
}

#[test]
fn escapes_in_destination_and_title() {
    let nodes = parse("[a](b\\)c \"t\\\"u\")");
    assert_eq!(nodes.len(), 1);
    assert!(is_link(&nodes[0], '\0', Some("b)c"), Some("t\"u")));
}

#[test]
fn image_with_prefix() {
    let nodes = parse("![alt](img.png)");
    assert_eq!(nodes.len(), 1);
    assert!(is_link(&nodes[0], '!', Some("img.png"), None));
    assert!(is_text(&nodes[0].children[0], "alt"));
    assert_eq!(nodes[0].srcmap, Some((0, 15)));
}

#[test]
fn prefix_without_bracket_is_text() {
    let nodes = parse("!a");
    assert_eq!(nodes.len(), 1);
    assert!(is_text(&nodes[0], "!a"));
}

#[test]
fn refused_scheme_is_not_a_link() {
    let nodes = parse("[a](javascript:alert(1))");
    assert_eq!(nodes.len(), 1);
    assert!(is_text(&nodes[0], "[a](javascript:alert(1))"));
}

#[test]
fn accepted_data_image() {
    let nodes = parse("[a](data:image/png;base64,AAAA)");
    assert_eq!(nodes.len(), 1);
    assert!(is_link(&nodes[0], '\0', Some("data:image/png;base64,AAAA"), None));
}

#[test]
fn unclosed_label_is_text() {
    let nodes = parse("[a (b)");
    assert_eq!(nodes.len(), 1);
    assert!(is_text(&nodes[0], "[a (b)"));
}

#[test]
fn label_without_destination_and_no_references() {
    let nodes = parse("[a] b");
    assert_eq!(nodes.len(), 1);
    assert!(is_text(&nodes[0], "[a] b"));
}

#[test]
fn unclosed_parenthesis_is_text() {
    let nodes = parse("[a](b");
    assert_eq!(nodes.len(), 1);
    assert!(is_text(&nodes[0], "[a](b"));
}

#[test]
fn nested_link_refused_without_nesting() {
    let nodes = parse("[a [b](c) d](e)");
    assert_eq!(nodes.len(), 3);
    assert!(is_text(&nodes[0], "[a "));
    assert!(is_link(&nodes[1], '\0', Some("c"), None));
    assert!(is_text(&nodes[1].children[0], "b"));
    assert!(is_text(&nodes[2], " d](e)"));
}

#[test]
fn nested_link_accepted_with_nesting() {
    let nodes = parse_with(&parser(true), "[a [b](c) d](e)", None);
    assert_eq!(nodes.len(), 1);
    assert!(is_link(&nodes[0], '\0', Some("e"), None));
    let inner = &nodes[0].children;
    assert_eq!(inner.len(), 3);
    assert!(is_text(&inner[0], "a "));
    assert!(is_link(&inner[1], '\0', Some("c"), None));
    assert!(is_text(&inner[1].children[0], "b"));
    assert!(is_text(&inner[2], " d"));
}

#[test]
fn image_inside_link_is_allowed() {
    let nodes = parse("[![i](s)](h)");
    assert_eq!(nodes.len(), 1);
    assert!(is_link(&nodes[0], '\0', Some("h"), None));
    assert_eq!(nodes[0].children.len(), 1);
    assert!(is_link(&nodes[0].children[0], '!', Some("s"), None));
}

#[test]
fn code_span_hides_closing_bracket() {
    let nodes = parse("[a `]` b](c)");
    assert_eq!(nodes.len(), 1);
    assert!(is_link(&nodes[0], '\0', Some("c"), None));
    let inner = &nodes[0].children;
    assert_eq!(inner.len(), 3);
    assert!(is_text(&inner[0], "a "));
    assert!(matches!(inner[1].value, NodeValue::CodeSpan { marker: '`', length: 1 }));
    assert!(is_text(&inner[1].children[0], "]"));
    assert!(is_text(&inner[2], " b"));
}

fn references() -> ReferenceMap {
    let mut refs = ReferenceMap::new();
    assert!(refs.insert("Foo Bar", "/url".to_string(), Some("title".to_string())));
    assert!(refs.insert("baz", "/baz".to_string(), None));
    refs
}

#[test]
fn shortcut_reference_link() {
    let nodes = parse_with(&parser(false), "[foo   BAR] x", Some(references()));
    assert_eq!(nodes.len(), 2);
    assert!(is_link(&nodes[0], '\0', Some("/url"), Some("title")));
    assert!(is_text(&nodes[0].children[0], "foo   BAR"));
    assert_eq!(nodes[0].srcmap, Some((0, 11)));
    assert!(is_text(&nodes[1], " x"));
}

#[test]
fn full_reference_link() {
    let nodes = parse_with(&parser(false), "[text][BAZ]", Some(references()));
    assert_eq!(nodes.len(), 1);
    assert!(is_link(&nodes[0], '\0', Some("/baz"), None));
    assert!(is_text(&nodes[0].children[0], "text"));
    assert_eq!(nodes[0].srcmap, Some((0, 11)));
}

#[test]
fn collapsed_reference_link() {
    let nodes = parse_with(&parser(false), "[baz][]", Some(references()));
    assert_eq!(nodes.len(), 1);
    assert!(is_link(&nodes[0], '\0', Some("/baz"), None));
    assert_eq!(nodes[0].srcmap, Some((0, 7)));
}

#[test]
fn undefined_reference_is_text() {
    let nodes = parse_with(&parser(false), "[nope]", Some(references()));
    assert_eq!(nodes.len(), 1);
    assert!(is_text(&nodes[0], "[nope]"));
}

#[test]
fn inline_part_wins_over_reference() {
    let nodes = parse_with(&parser(false), "[baz](/here)", Some(references()));
    assert_eq!(nodes.len(), 1);
    assert!(is_link(&nodes[0], '\0', Some("/here"), None));
}

#[test]
fn inline_roots_below_other_nodes_are_parsed() {
    let md = parser(false);
    let inline = Node::new(NodeValue::InlineRoot(InlineRoot {
        content: "[a](b)".to_string(),
        mapping: vec![(0, 0)],
    }));
    let mut block = Node::new(NodeValue::Empty);
    block.children.push(inline);
    let mut root = Node::new(NodeValue::Root { references: None });
    root.children.push(block);
    root.children.push(Node::new(NodeValue::Text { content: "kept".to_string() }));
    InlineParserRule::run(&mut root, &md);
    assert_eq!(root.children.len(), 2);
    assert!(matches!(root.children[0].value, NodeValue::Empty));
    assert_eq!(root.children[0].children.len(), 1);
    assert!(is_link(&root.children[0].children[0], '\0', Some("b"), None));
    assert!(is_text(&root.children[1], "kept"));
}

#[test]
fn empty_inline_content_leaves_nothing() {
    let nodes = parse("");
    assert!(nodes.is_empty());
}

#[test]
fn references_in_destination_and_title_are_decoded() {
    let nodes = parse("[a](x&amp;y \"&#65;&quot;\")");
    assert_eq!(nodes.len(), 1);
    assert!(is_link(&nodes[0], '\0', Some("x&y"), Some("A\"")));
}

#[test]
fn plain_text_becomes_one_text_node() {
    let md = parser(false);
    let holder = Node::new(NodeValue::Empty);
    let out = markdown_it::parser::inline::parse_inline(&md, "just words, no markup".to_string(), vec![(0, 5)], holder, None);
    assert!(matches!(out.value, NodeValue::Empty));
    assert_eq!(out.children.len(), 1);
    assert!(is_text(&out.children[0], "just words, no markup"));
    assert_eq!(out.children[0].srcmap, Some((5, 26)));
}

#[test]
fn source_positions_count_bytes() {
    let nodes = parse("é [ü](b) `ö`");
    assert_eq!(nodes.len(), 4);
    assert!(is_text(&nodes[0], "é "));
    assert_eq!(nodes[0].srcmap, Some((0, 3)));
    assert!(is_link(&nodes[1], '\0', Some("b"), None));
    assert_eq!(nodes[1].srcmap, Some((3, 10)));
    assert_eq!(nodes[1].children[0].srcmap, Some((4, 6)));
    assert!(is_text(&nodes[2], " "));
    assert!(matches!(nodes[3].value, NodeValue::CodeSpan { marker: '`', length: 1 }));
    assert_eq!(nodes[3].srcmap, Some((11, 15)));
    assert_eq!(nodes[3].children[0].srcmap, Some((12, 14)));
}

fn same_tree(a: &Node, b: &Node) -> bool {
    let values = match (&a.value, &b.value) {
        (NodeValue::Text { content: x }, NodeValue::Text { content: y }) => x == y,
        (
            NodeValue::Link { prefix: p, url: u, title: t },
            NodeValue::Link { prefix: q, url: v, title: w },
        ) => p == q && u == v && t == w,
        (
            NodeValue::CodeSpan { marker: m, length: l },
            NodeValue::CodeSpan { marker: n, length: k },
        ) => m == n && l == k,
        (NodeValue::Root { .. }, NodeValue::Root { .. }) => true,
        (NodeValue::Empty, NodeValue::Empty) => true,
        _ => false,
    };
    values
        && a.srcmap == b.srcmap
        && a.children.len() == b.children.len()
        && a.children.iter().zip(b.children.iter()).all(|(x, y)| same_tree(x, y))
}

fn copy_tree(n: &Node) -> Node {
    let value = match &n.value {
        NodeValue::Text { content } => NodeValue::Text { content: content.clone() },
        NodeValue::Link { prefix, url, title } => {
            NodeValue::Link { prefix: *prefix, url: url.clone(), title: title.clone() }
        }
        NodeValue::CodeSpan { marker, length } => NodeValue::CodeSpan { marker: *marker, length: *length },
        NodeValue::Root { .. } => NodeValue::Root { references: None },
        _ => NodeValue::Empty,
    };
    Node { value, children: n.children.iter().map(copy_tree).collect(), srcmap: n.srcmap }
}

#[test]
fn running_the_inline_rule_twice_changes_nothing() {
    let md = parser(false);
    let inline = Node::new(NodeValue::InlineRoot(InlineRoot {
        content: "a [b `c`](d) ![e](f) `g`".to_string(),
        mapping: vec![(0, 0)],
    }));
    let mut root = Node::new(NodeValue::Root { references: None });
    root.children.push(inline);
    InlineParserRule::run(&mut root, &md);
    let once = copy_tree(&root);
    InlineParserRule::run(&mut root, &md);
    assert!(same_tree(&root, &once));
    assert_eq!(root.children.len(), 6);
}

#[test]
fn span_cache_filled_inside_label_scan() {
    let nodes = parse("[`a](b) `a`");
    assert_eq!(nodes.len(), 3);
    assert!(is_text(&nodes[0], "["));
    assert!(matches!(nodes[1].value, NodeValue::CodeSpan { marker: '`', length: 1 }));
    assert!(is_text(&nodes[1].children[0], "a](b) "));
    assert!(is_text(&nodes[2], "a`"));
}

#[test]
fn plain_content_through_the_core_rule() {
    let nodes = parse("hello, world");
    assert_eq!(nodes.len(), 1);
    assert!(is_text(&nodes[0], "hello, world"));
    assert_eq!(nodes[0].srcmap, Some((0, 12)));
}

#[test]
fn label_scan_and_label_tokens_can_differ() {
    let nodes = parse("[``a[b](c)`](d)");
    assert_eq!(nodes.len(), 1);
    assert!(is_link(&nodes[0], '\0', Some("d"), None));
    let inner = &nodes[0].children;
    assert_eq!(inner.len(), 3);
    assert!(is_text(&inner[0], "``a"));
    assert!(is_link(&inner[1], '\0', Some("c"), None));
    assert!(is_text(&inner[2], "`"));
}

#[test]
fn destination_is_normalized() {
    let nodes = parse("[a](<\u{e9} [x]%41%zz>)");
    assert_eq!(nodes.len(), 1);
    assert!(is_link(&nodes[0], '\0', Some("%C3%A9%20%5Bx%5D%41%25zz"), None));
}

#[test]
fn unclosed_inner_label_is_no_reference_link() {
    let mut refs = ReferenceMap::new();
    assert!(refs.insert("fo", "/fo".to_string(), None));
    assert!(refs.insert("foo", "/foo".to_string(), None));
    let nodes = parse_with(&parser(false), "[[foo", Some(refs));
    assert_eq!(nodes.len(), 1);
    assert!(is_text(&nodes[0], "[[foo"));
}

#[test]
fn link_text_of_a_multibyte_prefix() {
    let mut md = MarkdownIt::new();
    full_link::add_prefix::<false>(&mut md, '\u{e9}');
    let nodes = parse_with(&md, "\u{e9}[ab](c)", None);
    assert_eq!(nodes.len(), 1);
    assert!(is_link(&nodes[0], '\u{e9}', Some("c"), None));
    assert!(is_text(&nodes[0].children[0], "ab"));
    assert_eq!(nodes[0].srcmap, Some((0, 9)));
}

#[test]
fn bracket_inside_span_does_not_close_label() {
    let nodes = parse("[`](b)`]x");
    assert_eq!(nodes.len(), 3);
    assert!(is_text(&nodes[0], "["));
    assert!(matches!(nodes[1].value, NodeValue::CodeSpan { marker: '`', length: 1 }));
    assert!(is_text(&nodes[1].children[0], "](b)"));
    assert!(is_text(&nodes[2], "]x"));
}

#[test]
fn link_right_after_bracket_refuses_label() {
    let nodes = parse("[[x](y)](z)");
    assert_eq!(nodes.len(), 3);
    assert!(is_text(&nodes[0], "["));
    assert!(is_link(&nodes[1], '\0', Some("y"), None));
    assert!(is_text(&nodes[2], "](z)"));
}

#[test]
fn span_in_second_label_names_the_reference() {
    let mut refs = ReferenceMap::new();
    assert!(refs.insert("`b`", "/code".to_string(), None));
    let nodes = parse_with(&parser(false), "[a][`b`] x", Some(refs));
    assert_eq!(nodes.len(), 2);
    assert!(is_link(&nodes[0], '\0', Some("/code"), None));
    assert!(is_text(&nodes[0].children[0], "a"));
    assert_eq!(nodes[0].srcmap, Some((0, 8)));
    assert!(is_text(&nodes[1], " x"));
}

#[test]
fn span_in_first_label_of_collapsed_reference() {
    let mut refs = ReferenceMap::new();
    assert!(refs.insert("`c`", "/c".to_string(), None));
    let nodes = parse_with(&parser(false), "[`c`][]", Some(refs));
    assert_eq!(nodes.len(), 1);
    assert!(is_link(&nodes[0], '\0', Some("/c"), None));
    assert!(matches!(nodes[0].children[0].value, NodeValue::CodeSpan { marker: '`', length: 1 }));
    assert_eq!(nodes[0].srcmap, Some((0, 7)));
}

#[test]
fn nested_link_closing_the_label_with_nesting() {
    let nodes = parse_with(&parser(true), "[a [b](c)](d)", None);
    assert_eq!(nodes.len(), 1);
    assert!(is_link(&nodes[0], '\0', Some("d"), None));
    assert_eq!(nodes[0].srcmap, Some((0, 13)));
    let inner = &nodes[0].children;
    assert_eq!(inner.len(), 2);
    assert!(is_text(&inner[0], "a "));
    assert!(is_link(&inner[1], '\0', Some("c"), None));
}

#[test]
fn label_jumps_over_inner_label_scanned_before() {
    let nodes = parse("[a [b] c](u)");
    assert_eq!(nodes.len(), 1);
    assert!(is_link(&nodes[0], '\0', Some("u"), None));
    assert_eq!(nodes[0].children.len(), 1);
    assert!(is_text(&nodes[0].children[0], "a [b] c"));
}

#[test]
fn label_with_span_and_inner_label() {
    let nodes = parse("[`x` [y]](z)");
    assert_eq!(nodes.len(), 1);
    assert!(is_link(&nodes[0], '\0', Some("z"), None));
    let inner = &nodes[0].children;
    assert_eq!(inner.len(), 2);
    assert!(matches!(inner[0].value, NodeValue::CodeSpan { marker: '`', length: 1 }));
    assert!(is_text(&inner[1], " [y]"));
}

#[test]
fn ideographic_space_collapses_in_labels() {
    let mut refs = ReferenceMap::new();
    assert!(refs.insert("foo bar", "/fb".to_string(), None));
    let nodes = parse_with(&parser(false), "[foo\u{3000}bar]", Some(refs));
    assert_eq!(nodes.len(), 1);
    assert!(is_link(&nodes[0], '\0', Some("/fb"), None));
}
