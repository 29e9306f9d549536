use markdown_it::generics::inline::full_link::{parse_link_destination, parse_link_title};

#[test]
fn destination_in_angle_brackets() {
    let r = parse_link_destination("<a b>c", 0, 6).unwrap();
    assert_eq!(r.pos, 5);
    assert_eq!(r.lines, 0);
    assert_eq!(r.str, "a b");
}

#[test]
fn title_with_newline() {
    let r = parse_link_title("\"a\nb\" x", 0, 7).unwrap();
    assert_eq!(r.pos, 5);
    assert_eq!(r.lines, 1);
    assert_eq!(r.str, "a\nb");
}

#[test]
fn bare_destination_stops_at_space() {
    let r = parse_link_destination("a b", 0, 3).unwrap();
    assert_eq!(r.pos, 1);
    assert_eq!(r.str, "a");
}

#[test]
fn bare_destination_with_balanced_parentheses() {
    let r = parse_link_destination("(a(b)c)) x", 0, 10).unwrap();
    assert_eq!(r.pos, 7);
    assert_eq!(r.str, "(a(b)c)");
}

#[test]
fn bare_destination_unbalanced_fails() {
    assert!(parse_link_destination("(a", 0, 2).is_none());
}

#[test]
fn bare_destination_nesting_limit() {
    let ok = format!("{}{}", "(".repeat(32), ")".repeat(32));
    let r = parse_link_destination(&ok, 0, ok.len()).unwrap();
    assert_eq!(r.pos, 64);
    let deep = format!("{}{}", "(".repeat(33), ")".repeat(33));
    assert!(parse_link_destination(&deep, 0, deep.len()).is_none());
}

#[test]
fn bare_destination_escape_and_control() {
    let r = parse_link_destination("a\\ b", 0, 4).unwrap();
    assert_eq!(r.pos, 1);
    assert_eq!(r.str, "a");
    let r = parse_link_destination("a\\)b\tc", 0, 6).unwrap();
    assert_eq!(r.pos, 4);
    assert_eq!(r.str, "a)b");
}

#[test]
fn empty_destination_is_accepted() {
    let r = parse_link_destination(")", 0, 1).unwrap();
    assert_eq!(r.pos, 0);
    assert_eq!(r.str, "");
    let r = parse_link_destination("", 0, 0).unwrap();
    assert_eq!(r.pos, 0);
}

#[test]
fn angle_destination_failures() {
    assert!(parse_link_destination("<a\nb>", 0, 5).is_none());
    assert!(parse_link_destination("<a<b>", 0, 5).is_none());
    assert!(parse_link_destination("<ab", 0, 3).is_none());
    assert!(parse_link_destination("<a\\", 0, 3).is_none());
}

#[test]
fn angle_destination_with_escaped_bracket() {
    let r = parse_link_destination("<a\\>b>", 0, 6).unwrap();
    assert_eq!(r.pos, 6);
    assert_eq!(r.str, "a>b");
}

#[test]
fn destination_offsets_are_bytes() {
    let s = "x<é>y";
    let r = parse_link_destination(s, 1, s.len()).unwrap();
    assert_eq!(r.pos, 5);
    assert_eq!(r.str, "é");
    let r = parse_link_destination("é)", 0, 3).unwrap();
    assert_eq!(r.pos, 2);
    assert_eq!(r.str, "é");
}

#[test]
fn destination_within_range() {
    let s = "[a](bcd) e";
    let r = parse_link_destination(s, 4, 6).unwrap();
    assert_eq!(r.pos, 6);
    assert_eq!(r.str, "bc");
}

#[test]
fn title_markers() {
    let r = parse_link_title("'a'", 0, 3).unwrap();
    assert_eq!((r.pos, r.lines, r.str.as_str()), (3, 0, "a"));
    let r = parse_link_title("(a)", 0, 3).unwrap();
    assert_eq!((r.pos, r.lines, r.str.as_str()), (3, 0, "a"));
    let r = parse_link_title("\"a'b\"", 0, 5).unwrap();
    assert_eq!(r.str, "a'b");
    assert!(parse_link_title("x", 0, 1).is_none());
    assert!(parse_link_title("", 0, 0).is_none());
}

#[test]
fn title_failures() {
    assert!(parse_link_title("(a(b)", 0, 5).is_none());
    assert!(parse_link_title("\"ab", 0, 3).is_none());
    assert!(parse_link_title("\"a\\", 0, 3).is_none());
}

#[test]
fn title_with_escapes_and_lines() {
    let r = parse_link_title("\"a\\\"b\nc\n\"", 0, 9).unwrap();
    assert_eq!(r.pos, 9);
    assert_eq!(r.lines, 2);
    assert_eq!(r.str, "a\"b\nc\n");
}

#[test]
fn title_offsets_are_bytes() {
    let s = "é'ü'";
    let r = parse_link_title(s, 2, s.len()).unwrap();
    assert_eq!(r.pos, 6);
    assert_eq!(r.str, "ü");
}

#[test]
fn escaped_newline_counts_as_a_line() {
    let r = parse_link_destination("<a\\\nb>", 0, 6).unwrap();
    assert_eq!(r.pos, 6);
    assert_eq!(r.lines, 1);
    let r = parse_link_title("'a\\\nb'", 0, 6).unwrap();
    assert_eq!(r.pos, 6);
    assert_eq!(r.lines, 1);
}
