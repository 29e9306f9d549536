use markdown_it::node::{Node, NodeValue};
use markdown_it::parser::inline::builtin::inline_parser::{self, InlineParserRule, InlineRoot};
use markdown_it::parser::internals::syntax_base::generics::inline::code_pair;
use markdown_it::parser::{InlineRuleKind, MarkdownIt};

fn parse_marker(marker: char, content: &str) -> Vec<Node> {
    let mut md = MarkdownIt::new();
    code_pair::add_with(&mut md, marker);
    inline_parser::add(&mut md);
    let inline = Node::new(NodeValue::InlineRoot(InlineRoot {
        content: content.to_string(),
        mapping: vec![(0, 0)],
    }));
    let mut root = Node::new(NodeValue::Root { references: None });
    root.children.push(inline);
    InlineParserRule::run(&mut root, &md);
    root.children
}

fn is_text(n: &Node, s: &str) -> bool {
    matches!(&n.value, NodeValue::Text { content } if content == s) && n.children.is_empty()
}

fn is_span(n: &Node, marker: char, length: usize, text: &str) -> bool {
    match n.value {
        NodeValue::CodeSpan { marker: m, length: l } => {
            m == marker && l == length && n.children.len() == 1 && is_text(&n.children[0], text)
        }
        _ => false,
    }
}

#[test]
fn add_with_registers_the_marker() {
    let mut md = MarkdownIt::new();
    code_pair::add_with(&mut md, '`');
    code_pair::add_with(&mut md, '~');
    assert!(md.inline.rules == vec![InlineRuleKind::CodePair('`'), InlineRuleKind::CodePair('~')]);
    assert!(md.core.is_empty());
}

#[test]
fn simple_span() {
    let nodes = parse_marker('`', "a `b` c");
    assert_eq!(nodes.len(), 3);
    assert!(is_text(&nodes[0], "a "));
    assert!(is_span(&nodes[1], '`', 1, "b"));
    assert_eq!(nodes[1].srcmap, Some((2, 5)));
    assert_eq!(nodes[1].children[0].srcmap, Some((3, 4)));
    assert!(is_text(&nodes[2], " c"));
}

#[test]
fn double_run_holds_single_marker() {
    let nodes = parse_marker('`', "`` a ` b ``");
    assert_eq!(nodes.len(), 1);
    assert!(is_span(&nodes[0], '`', 2, "a ` b"));
    assert_eq!(nodes[0].srcmap, Some((0, 11)));
    assert_eq!(nodes[0].children[0].srcmap, Some((3, 8)));
}

#[test]
fn newlines_become_spaces() {
    let nodes = parse_marker('`', "`a\nb`");
    assert_eq!(nodes.len(), 1);
    assert!(is_span(&nodes[0], '`', 1, "a b"));
}

#[test]
fn only_spaces_are_kept() {
    let nodes = parse_marker('`', "`  `");
    assert_eq!(nodes.len(), 1);
    assert!(is_span(&nodes[0], '`', 1, "  "));
}

#[test]
fn one_space_each_side_is_stripped() {
    let nodes = parse_marker('`', "`  a  `");
    assert_eq!(nodes.len(), 1);
    assert!(is_span(&nodes[0], '`', 1, " a "));
    assert_eq!(nodes[0].children[0].srcmap, Some((2, 5)));
}

#[test]
fn unmatched_run_is_text() {
    let nodes = parse_marker('`', "``a`");
    assert_eq!(nodes.len(), 1);
    assert!(is_text(&nodes[0], "``a`"));
}

#[test]
fn longer_closer_is_skipped() {
    let nodes = parse_marker('`', "`a``b`");
    assert_eq!(nodes.len(), 1);
    assert!(is_span(&nodes[0], '`', 1, "a``b"));
}

#[test]
fn other_marker() {
    let nodes = parse_marker('~', "x ~~y~~");
    assert_eq!(nodes.len(), 2);
    assert!(is_text(&nodes[0], "x "));
    assert!(is_span(&nodes[1], '~', 2, "y"));
}

#[test]
fn marker_after_text_ending_with_marker_is_text() {
    let nodes = parse_marker('`', "```a``");
    assert_eq!(nodes.len(), 1);
    assert!(is_text(&nodes[0], "```a``"));
}

#[test]
fn cache_keeps_the_furthest_closer() {
    let nodes = parse_marker('`', "```a`b``c`d``e``");
    assert_eq!(nodes.len(), 4);
    assert!(is_text(&nodes[0], "```a"));
    assert!(is_span(&nodes[1], '`', 1, "b``c"));
    assert!(is_text(&nodes[2], "d"));
    assert!(is_span(&nodes[3], '`', 2, "e"));
}
