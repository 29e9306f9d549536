use markdown_it::common::utils::unescape_all;
use markdown_it::generics::inline::full_link::{self, LinkPrefixScanner, LinkScanner, LinkScannerEnd};
use markdown_it::parser::inline::builtin::inline_parser;
use markdown_it::parser::{normalize_link, validate_link, CoreRuleKind, InlineRuleKind, MarkdownIt};
use markdown_it::references::{normalize_reference, ReferenceMap};

fn chars(s: &str) -> Vec<char> {
    s.chars().collect()
}

#[test]
fn unescape_backslash_escapes() {
    assert_eq!(unescape_all("\\*a\\*"), "*a*");
    assert_eq!(unescape_all("\\\\"), "\\");
    assert_eq!(unescape_all("\\a\\"), "\\a\\");
}

#[test]
fn unescape_numeric_references() {
    assert_eq!(unescape_all("&#65;&#x42;&#X43;"), "ABC");
    assert_eq!(unescape_all("&#x1F600;"), "\u{1F600}");
    assert_eq!(unescape_all("&#0065;"), "A");
}

#[test]
fn unescape_keeps_invalid_references() {
    assert_eq!(unescape_all("&#0;"), "&#0;");
    assert_eq!(unescape_all("&#xD800;"), "&#xD800;");
    assert_eq!(unescape_all("&#123456789;"), "&#123456789;");
    assert_eq!(unescape_all("&#65"), "&#65");
    assert_eq!(unescape_all("&#x;"), "&#x;");
}

#[test]
fn unescape_plain_text_is_unchanged() {
    assert_eq!(unescape_all("plain text, é"), "plain text, é");
    assert_eq!(unescape_all(""), "");
}

#[test]
fn escaped_reference_is_not_decoded() {
    assert_eq!(unescape_all("\\&#65;"), "&#65;");
}

#[test]
fn validate_link_schemes() {
    assert!(!validate_link(&chars("javascript:alert(1)")));
    assert!(!validate_link(&chars("JavaScript:x")));
    assert!(!validate_link(&chars("vbscript:x")));
    assert!(!validate_link(&chars("file:///etc/passwd")));
    assert!(!validate_link(&chars("data:text/html,x")));
    assert!(validate_link(&chars("data:image/png;base64,AAA")));
    assert!(validate_link(&chars("DATA:IMAGE/GIF;x")));
    assert!(validate_link(&chars("http://example.com")));
    assert!(validate_link(&chars("")));
    assert!(validate_link(&chars("javascript")));
}

#[test]
fn normalized_labels() {
    assert_eq!(normalize_reference("  Foo \t bar\n"), "FOO BAR");
    assert_eq!(normalize_reference("ß"), "SS");
    assert_eq!(normalize_reference(""), "");
}

#[test]
fn reference_insert_then_get() {
    let mut refs = ReferenceMap::new();
    assert!(refs.insert("Foo", "/a".to_string(), Some("t".to_string())));
    let d = refs.get("  fOO ").unwrap();
    assert_eq!(d.destination, "/a");
    assert_eq!(d.title.as_deref(), Some("t"));
    assert!(refs.get("bar").is_none());
}

#[test]
fn first_definition_wins() {
    let mut refs = ReferenceMap::new();
    assert!(refs.insert("foo", "/first".to_string(), None));
    assert!(!refs.insert("FOO", "/second".to_string(), None));
    assert_eq!(refs.get("foo").unwrap().destination, "/first");
    assert_eq!(refs.entries.len(), 1);
}

#[test]
fn other_labels_unaffected_by_insert() {
    let mut refs = ReferenceMap::new();
    assert!(refs.insert("a", "/a".to_string(), None));
    assert!(refs.insert("b", "/b".to_string(), None));
    assert_eq!(refs.get("A").unwrap().destination, "/a");
    assert_eq!(refs.get("B").unwrap().destination, "/b");
}

#[test]
fn link_end_rule_registered_once() {
    let mut md = MarkdownIt::new();
    full_link::add::<false>(&mut md);
    full_link::add_prefix::<false>(&mut md, '!');
    full_link::add::<true>(&mut md);
    assert!(
        md.inline.rules
            == vec![
                InlineRuleKind::Link(LinkScanner { enable_nested: false }),
                InlineRuleKind::LinkEnd(LinkScannerEnd),
                InlineRuleKind::LinkPrefix(LinkPrefixScanner { prefix: '!', enable_nested: false }),
                InlineRuleKind::Link(LinkScanner { enable_nested: true }),
            ]
    );
    assert!(md.inline.has_rule(&InlineRuleKind::LinkEnd(LinkScannerEnd)));
    assert!(!md.inline.has_rule(&InlineRuleKind::CodePair('`')));
}

#[test]
fn inline_parser_goes_after_block_parser() {
    let mut md = MarkdownIt::new();
    inline_parser::add(&mut md);
    assert!(md.core == vec![CoreRuleKind::InlineParser]);

    let mut md = MarkdownIt::new();
    md.core.push(CoreRuleKind::BlockParser);
    inline_parser::add(&mut md);
    assert!(md.core == vec![CoreRuleKind::BlockParser, CoreRuleKind::InlineParser]);
}

#[test]
fn inline_parser_added_first_without_block_parser() {
    let mut md = MarkdownIt::new();
    md.core.push(CoreRuleKind::InlineParser);
    inline_parser::add(&mut md);
    assert!(md.core == vec![CoreRuleKind::InlineParser, CoreRuleKind::InlineParser]);
    assert!(md.inline.rules.is_empty());
}

#[test]
fn unescape_named_references() {
    assert_eq!(unescape_all("&amp;&copy;&AMP;"), "&\u{a9}&");
    assert_eq!(unescape_all("a &lt; b &gt; c"), "a < b > c");
    assert_eq!(unescape_all("&nGt;"), "\u{226b}\u{20d2}");
}

#[test]
fn unescape_keeps_unknown_or_unterminated_names() {
    assert_eq!(unescape_all("&Amp;"), "&Amp;");
    assert_eq!(unescape_all("&amp"), "&amp");
    assert_eq!(unescape_all("&a;"), "&a;");
    assert_eq!(unescape_all("&1amp;"), "&1amp;");
    assert_eq!(unescape_all("&&amp;"), "&&");
}

#[test]
fn normalize_link_percent_encodes() {
    assert_eq!(normalize_link("a b"), "a%20b");
    assert_eq!(normalize_link("http://x.org/?a=1&b=2#c"), "http://x.org/?a=1&b=2#c");
    assert_eq!(normalize_link("%2F%"), "%2F%25");
    assert_eq!(normalize_link("\u{e9}"), "%C3%A9");
    assert_eq!(normalize_link("[]"), "%5B%5D");
}
