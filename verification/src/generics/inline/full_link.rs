//! Structure similar to `[link](<to> "stuff")` with configurable prefix.
//!
//! There are two structures in CommonMark that match this syntax:
//!  - links - `[text](<href> "title")`
//!  - images - `![alt](<src> "title")`
//!
//! A custom structure such as `~[foo](<bar> "baz")` is added with
//! [add_prefix], which takes the marker character placed before the label
//! and whether links may nest inside the label.
use vstd::prelude::*;
use crate::node::{Node, NodeValue, children_are_parsed, lemma_node_is_parsed, node_is_parsed};
use crate::parser::{InlineRuleKind, MarkdownIt, link_is_valid, normalize_link, percent_encoded, validate_link};
use crate::references::{Reference, find_reference, normalize_label};
use crate::parser::inline::{InlineEnv, InlineRule, InlineState, all_unscanned, lemma_first_starting_rule, first_starting_rule, first_link_rule, first_span_rule, labels_kept, plain_text, same_frame, trailing_text, source_range, starts_token, tokenize, tokenize_one};
use crate::parser::internals::syntax_base::generics::inline::code_pair::span_at;
use crate::parser::inline::scan::{Cx, Tok, nodes_toks, tokens, node_tok, link_tok, Ctl, ctl_of, cx_of, label_ctl, label_loop, link_ctl, parse_link_ctl, reference_ctl, rules_from, tokenize_ctl, cached_answer, lookup};
use crate::common::utils::{string_of_range, 
    advance_offset, byte_offset, char_index_for_offset, char_index_of, is_char_offset,
    lemma_byte_offset_mono, lemma_char_index_of, str_chars, unescape_range, unescape_spec,
};

verus! {

/// `stacker::maybe_grow` runs `callback` (on a newly allocated stack of at
/// least `stack_size` bytes when less than `red_zone` bytes of stack are
/// left) and returns what it returns.
pub assume_specification<R, F: FnOnce() -> R>[ stacker::maybe_grow::<R, F> ](
    red_zone: usize,
    stack_size: usize,
    callback: F,
) -> (r: R)
    requires
        call_requires(callback, ()),
    ensures
        call_ensures(callback, (), r),
;

/// Inline rule for `[label](href "title")`; `enable_nested` allows links
/// inside the label.
#[derive(PartialEq, Eq, Structural)]
pub struct LinkScanner {
    pub enable_nested: bool,
}

/// Inline rule for `P[label](href "title")` where `P` is `prefix`.
#[derive(PartialEq, Eq, Structural)]
pub struct LinkPrefixScanner {
    pub prefix: char,
    pub enable_nested: bool,
}

/// Inline rule that marks `]` as the end of a label; it never matches.
#[derive(PartialEq, Eq, Structural)]
pub struct LinkScannerEnd;

/// Result of parsing the destination or the title of a link.
pub struct ParseLinkFragmentResult {
    /// end position
    pub pos: usize,
    /// number of linebreaks inside
    pub lines: usize,
    /// parsed result
    pub str: String,
}

// ---------------------------------------------------------------------
// Link destination: `<...>` or a bare destination with balanced brackets
// ---------------------------------------------------------------------

/// Position of the `>` that closes a `<...>` destination whose content
/// starts at `i`: a newline, a `<` or the end of the range make it fail, a
/// backslash makes the next character literal.
pub open spec fn angle_dest_close(s: Seq<char>, i: int, max: int) -> Option<int>
    decreases max - i,
{
    if i >= max {
        None
    } else if s[i] == '\n' || s[i] == '<' {
        None
    } else if s[i] == '>' {
        Some(i)
    } else if s[i] == '\\' {
        if i + 1 >= max {
            None
        } else {
            angle_dest_close(s, i + 2, max)
        }
    } else {
        angle_dest_close(s, i + 1, max)
    }
}

/// Ends a bare destination at `i`: accepted only when every `(` has been
/// closed.
pub open spec fn bare_dest_stop(i: int, level: nat) -> Option<int> {
    if level == 0 {
        Some(i)
    } else {
        None
    }
}

/// End of a bare destination scanned from `i` with `level` unclosed `(`:
/// it stops at a space or an ASCII control character, at an unmatched `)`,
/// at a backslash followed by a space or by nothing, and at the end of the
/// range; more than 32 nested `(` make it fail.
pub open spec fn bare_dest_end(s: Seq<char>, i: int, max: int, level: nat) -> Option<int>
    decreases max - i,
{
    if i >= max {
        bare_dest_stop(i, level)
    } else if s[i] <= ' ' || s[i] == '\x7f' {
        bare_dest_stop(i, level)
    } else if s[i] == '\\' {
        if i + 1 >= max || s[i + 1] == ' ' {
            bare_dest_stop(i, level)
        } else {
            bare_dest_end(s, i + 2, max, level)
        }
    } else if s[i] == '(' {
        if level + 1 > 32 {
            None
        } else {
            bare_dest_end(s, i + 1, max, level + 1)
        }
    } else if s[i] == ')' {
        if level == 0 {
            Some(i)
        } else {
            bare_dest_end(s, i + 1, max, (level - 1) as nat)
        }
    } else {
        bare_dest_end(s, i + 1, max, level)
    }
}

/// The link destination that starts at `start`, scanning no further than
/// `max`: `(end, content_start, content_end)`.
pub open spec fn link_destination_spec(s: Seq<char>, start: int, max: int) -> Option<(int, int, int)> {
    if start < max && s[start] == '<' {
        match angle_dest_close(s, start + 1, max) {
            Some(k) => Some((k + 1, start + 1, k)),
            None => None,
        }
    } else {
        match bare_dest_end(s, start, max, 0) {
            Some(k) => Some((k, start, k)),
            None => None,
        }
    }
}

/// `n` opening parentheses followed by `n` closing ones.
pub open spec fn nested_parens(n: nat) -> Seq<char> {
    Seq::new((2 * n) as nat, |k: int| if k < n { '(' } else { ')' })
}

proof fn lemma_parens_close(n: nat, l: nat)
    requires
        l <= n,
    ensures
        bare_dest_end(nested_parens(n), 2 * n - l, (2 * n) as int, l) == Some((2 * n) as int),
    decreases l,
{
    if l > 0 {
        lemma_parens_close(n, (l - 1) as nat);
        assert(nested_parens(n)[2 * n - l] == ')');
    }
}

proof fn lemma_parens_open(n: nat, i: nat)
    requires
        i <= n,
        n <= 32,
    ensures
        bare_dest_end(nested_parens(n), i as int, (2 * n) as int, i) == Some((2 * n) as int),
    decreases n - i,
{
    if i < n {
        lemma_parens_open(n, i + 1);
        assert(nested_parens(n)[i as int] == '(');
    } else {
        lemma_parens_close(n, n);
    }
}

proof fn lemma_parens_too_deep(n: nat, i: nat)
    requires
        i <= 32,
        n > 32,
    ensures
        bare_dest_end(nested_parens(n), i as int, (2 * n) as int, i) is None,
    decreases 32 - i,
{
    assert(nested_parens(n)[i as int] == '(');
    if i < 32 {
        lemma_parens_too_deep(n, i + 1);
    }
}

/// Parentheses in a destination nest at most 32 deep: `n` opening
/// parentheses followed by `n` closing ones form a whole destination when
/// `n <= 32`, and no destination at all when `n > 32`.
pub proof fn lemma_destination_nesting_limit(n: nat)
    requires
        n >= 1,
    ensures
        link_destination_spec(nested_parens(n), 0, (2 * n) as int) == (if n <= 32 {
            Some(((2 * n) as int, 0int, (2 * n) as int))
        } else {
            None
        }),
{
    assert(nested_parens(n)[0] == '(');
    if n <= 32 {
        lemma_parens_open(n, 0);
    } else {
        lemma_parens_too_deep(n, 0);
    }
}

/// Scans the link destination at character position `start` of `src`.
pub fn scan_link_destination(src: &Vec<char>, start: usize, max: usize) -> (r: Option<
    (usize, usize, usize),
>)
    requires
        start <= max <= src.len(),
    ensures
        match r {
            Some((e, a, b)) => link_destination_spec(src@, start as int, max as int) == Some(
                (e as int, a as int, b as int),
            ),
            None => link_destination_spec(src@, start as int, max as int) is None,
        },
        r matches Some((e, a, b)) ==> start <= a <= b <= e <= max,
{
    if start < max && src[start] == '<' {
        let mut i = start + 1;
        loop
            invariant
                start < i <= max,
                max <= src.len(),
                start < max && src@[start as int] == '<',
                angle_dest_close(src@, i as int, max as int) == angle_dest_close(
                    src@,
                    start + 1,
                    max as int,
                ),
            decreases max + 1 - i,
        {
            if i >= max {
                return None;
            }
            let c = src[i];
            if c == '\n' || c == '<' {
                return None;
            } else if c == '>' {
                return Some((i + 1, start + 1, i));
            } else if c == '\\' {
                if i + 1 >= max {
                    return None;
                }
                i = i + 2;
            } else {
                i = i + 1;
            }
        }
    } else {
        let mut i = start;
        let mut level: usize = 0;
        loop
            invariant
                start <= i <= max,
                max <= src.len(),
                !(start < max && src@[start as int] == '<'),
                level <= 32,
                bare_dest_end(src@, i as int, max as int, level as nat) == bare_dest_end(
                    src@,
                    start as int,
                    max as int,
                    0,
                ),
            decreases max + 1 - i,
        {
            if i >= max {
                return if level == 0 {
                    Some((i, start, i))
                } else {
                    None
                };
            }
            let c = src[i];
            if c <= ' ' || c == '\x7f' {
                return if level == 0 {
                    Some((i, start, i))
                } else {
                    None
                };
            } else if c == '\\' {
                if i + 1 >= max || src[i + 1] == ' ' {
                    return if level == 0 {
                        Some((i, start, i))
                    } else {
                        None
                    };
                }
                i = i + 2;
            } else if c == '(' {
                if level + 1 > 32 {
                    return None;
                }
                level = level + 1;
                i = i + 1;
            } else if c == ')' {
                if level == 0 {
                    return Some((i, start, i));
                }
                level = level - 1;
                i = i + 1;
            } else {
                i = i + 1;
            }
        }
    }
}

// ---------------------------------------------------------------------
// Link title: "...", '...' or (...)
// ---------------------------------------------------------------------

/// Closing marker of a title that opens with `c`.
pub open spec fn title_marker(c: char) -> Option<char> {
    if c == '"' {
        Some('"')
    } else if c == '\'' {
        Some('\'')
    } else if c == '(' {
        Some(')')
    } else {
        None
    }
}

/// Position of the closing `marker` of a title whose content is scanned
/// from `i`, with the number of newlines met on the way (escaped ones
/// included): a `(` inside a parenthesized title and the end of the range
/// make it fail, a backslash makes the next character literal.
pub open spec fn title_close(s: Seq<char>, i: int, max: int, marker: char, lines: nat) -> Option<
    (int, nat),
>
    decreases max - i,
{
    if i >= max {
        None
    } else if s[i] == marker {
        Some((i, lines))
    } else if s[i] == '(' && marker == ')' {
        None
    } else if s[i] == '\n' {
        title_close(s, i + 1, max, marker, lines + 1)
    } else if s[i] == '\\' {
        if i + 1 >= max {
            None
        } else {
            title_close(s, i + 2, max, marker, lines + if s[i + 1] == '\n' {
                1nat
            } else {
                0nat
            })
        }
    } else {
        title_close(s, i + 1, max, marker, lines)
    }
}

/// The link title that starts at `start`, scanning no further than `max`:
/// `(end, content_start, content_end, lines)`.
pub open spec fn link_title_spec(s: Seq<char>, start: int, max: int) -> Option<(int, int, int, nat)> {
    if start < max {
        match title_marker(s[start]) {
            Some(marker) => match title_close(s, start + 1, max, marker, 0) {
                Some((k, lines)) => Some((k + 1, start + 1, k, lines)),
                None => None,
            },
            None => None,
        }
    } else {
        None
    }
}

/// Scans the link title at character position `start` of `src`.
pub fn scan_link_title(src: &Vec<char>, start: usize, max: usize) -> (r: Option<
    (usize, usize, usize, usize),
>)
    requires
        start <= max <= src.len(),
    ensures
        match r {
            Some((e, a, b, l)) => link_title_spec(src@, start as int, max as int) == Some(
                (e as int, a as int, b as int, l as nat),
            ),
            None => link_title_spec(src@, start as int, max as int) is None,
        },
        r matches Some((e, a, b, l)) ==> start < a <= b < e <= max,
{
    if start >= max {
        return None;
    }
    let c0 = src[start];
    let marker = if c0 == '"' {
        '"'
    } else if c0 == '\'' {
        '\''
    } else if c0 == '(' {
        ')'
    } else {
        return None;
    };
    let mut i = start + 1;
    let mut lines: usize = 0;
    loop
        invariant
            start < i <= max,
            start < max,
            max <= src.len(),
            lines <= i - start,
            title_marker(src@[start as int]) == Some(marker),
            title_close(src@, i as int, max as int, marker, lines as nat) == title_close(
                src@,
                start + 1,
                max as int,
                marker,
                0,
            ),
        decreases max + 1 - i,
    {
        if i >= max {
            return None;
        }
        let c = src[i];
        if c == marker {
            return Some((i + 1, start + 1, i, lines));
        } else if c == '(' && marker == ')' {
            return None;
        } else if c == '\n' {
            lines = lines + 1;
            i = i + 1;
        } else if c == '\\' {
            if i + 1 >= max {
                return None;
            }
            if src[i + 1] == '\n' {
                lines = lines + 1;
            }
            i = i + 2;
        } else {
            i = i + 1;
        }
    }
}

proof fn lemma_angle_dest_close_bounds(s: Seq<char>, i: int, max: int)
    ensures
        angle_dest_close(s, i, max) matches Some(k) ==> i <= k < max && s[k] == '>',
    decreases max - i,
{
    if i < max && s[i] != '\n' && s[i] != '<' && s[i] != '>' {
        if s[i] == '\\' {
            if i + 1 < max {
                lemma_angle_dest_close_bounds(s, i + 2, max);
            }
        } else {
            lemma_angle_dest_close_bounds(s, i + 1, max);
        }
    }
}

proof fn lemma_bare_dest_end_bounds(s: Seq<char>, i: int, max: int, level: nat)
    requires
        i <= max,
    ensures
        bare_dest_end(s, i, max, level) matches Some(k) ==> i <= k <= max,
    decreases max - i,
{
    if i < max && !(s[i] <= ' ' || s[i] == '\x7f') {
        if s[i] == '\\' {
            if !(i + 1 >= max || s[i + 1] == ' ') {
                lemma_bare_dest_end_bounds(s, i + 2, max, level);
            }
        } else if s[i] == '(' {
            if level + 1 <= 32 {
                lemma_bare_dest_end_bounds(s, i + 1, max, level + 1);
            }
        } else if s[i] == ')' {
            if level > 0 {
                lemma_bare_dest_end_bounds(s, i + 1, max, (level - 1) as nat);
            }
        } else {
            lemma_bare_dest_end_bounds(s, i + 1, max, level);
        }
    }
}

proof fn lemma_title_close_bounds(s: Seq<char>, i: int, max: int, marker: char, lines: nat)
    ensures
        title_close(s, i, max, marker, lines) matches Some((k, l)) ==> i <= k < max && s[k] == marker
            && lines <= l <= lines + (k - i),
    decreases max - i,
{
    if i < max && s[i] != marker && !(s[i] == '(' && marker == ')') {
        if s[i] == '\n' {
            lemma_title_close_bounds(s, i + 1, max, marker, lines + 1);
        } else if s[i] == '\\' {
            if i + 1 < max {
                lemma_title_close_bounds(s, i + 2, max, marker, lines + if s[i + 1] == '\n' {
                    1nat
                } else {
                    0nat
                });
            }
        } else {
            lemma_title_close_bounds(s, i + 1, max, marker, lines);
        }
    }
}

/// A destination lies within the scanned range, its text within the
/// destination, and a `<...>` destination ends with `>`.
pub proof fn lemma_link_destination_within(s: Seq<char>, start: int, max: int)
    requires
        0 <= start <= max <= s.len(),
    ensures
        link_destination_spec(s, start, max) matches Some((e, a, b)) ==> {
            &&& start <= a <= b <= e <= max
            &&& (s[start] == '<' && start < max) ==> (a == start + 1 && e == b + 1 && s[b] == '>')
            &&& !(s[start] == '<' && start < max) ==> (a == start && b == e)
        },
{
    lemma_angle_dest_close_bounds(s, start + 1, max);
    lemma_bare_dest_end_bounds(s, start, max, 0);
}

/// A title lies within the scanned range, starts with an opening marker
/// and ends with the matching closing marker, and counts no more lines than
/// it has characters.
pub proof fn lemma_link_title_within(s: Seq<char>, start: int, max: int)
    requires
        0 <= start <= max <= s.len(),
    ensures
        link_title_spec(s, start, max) matches Some((e, a, b, l)) ==> {
            &&& start < a <= b < e <= max
            &&& a == start + 1 && e == b + 1
            &&& title_marker(s[start]) == Some(s[b])
            &&& l <= b - a
        },
{
    if start < max {
        if let Some(marker) = title_marker(s[start]) {
            lemma_title_close_bounds(s, start + 1, max, marker, 0);
        }
    }
}

/// Number of newlines in `s`.
pub open spec fn count_newlines(s: Seq<char>) -> nat
    decreases s.len(),
{
    if s.len() == 0 {
        0
    } else {
        count_newlines(s.drop_last()) + if s.last() == '\n' {
            1nat
        } else {
            0nat
        }
    }
}

/// Number of newlines in `v[a..b]`.
fn newlines_in(v: &Vec<char>, a: usize, b: usize) -> (n: usize)
    requires
        a <= b <= v.len(),
    ensures
        n == count_newlines(v@.subrange(a as int, b as int)),
{
    let mut n: usize = 0;
    let mut i = a;
    assert(v@.subrange(a as int, a as int).len() == 0);
    while i < b
        invariant
            a <= i <= b <= v.len(),
            n == count_newlines(v@.subrange(a as int, i as int)),
            n <= i - a,
        decreases b - i,
    {
        assert(v@.subrange(a as int, i + 1).drop_last() =~= v@.subrange(a as int, i as int));
        assert(v@.subrange(a as int, i + 1).last() == v@[i as int]);
        if v[i] == '\n' {
            n = n + 1;
        }
        i = i + 1;
    }
    n
}

/// Character positions of the byte offsets `start <= max` of `s`.
fn char_range_of(v: &Vec<char>, start: usize, max: usize) -> (r: (usize, usize))
    requires
        start <= max,
        is_char_offset(v@, start as int),
        is_char_offset(v@, max as int),
    ensures
        r.0 as int == char_index_of(v@, start as int),
        r.1 as int == char_index_of(v@, max as int),
        r.0 <= r.1 <= v.len(),
{
    let ks = char_index_for_offset(v, start);
    let km = char_index_for_offset(v, max);
    proof {
        lemma_char_index_of(v@, start as int);
        lemma_char_index_of(v@, max as int);
        if km < ks {
            lemma_byte_offset_mono(v@, km as int, ks as int);
        }
    }
    (ks, km)
}

/// Helper function used to parse `<href>` part of the links with optional brackets.
///
/// `start` and `max` are byte offsets of character boundaries of `str`; the
/// returned `pos` is the byte offset just past the destination.
pub fn parse_link_destination(str: &str, start: usize, max: usize) -> (r: Option<
    ParseLinkFragmentResult,
>)
    requires
        start <= max,
        is_char_offset(str@, start as int),
        is_char_offset(str@, max as int),
    ensures
        match link_destination_spec(
            str@,
            char_index_of(str@, start as int),
            char_index_of(str@, max as int),
        ) {
            Some((e, a, b)) => r matches Some(res) && res.pos == byte_offset(str@, e) && res.lines
                == count_newlines(str@.subrange(a, b)) && res.str@ == unescape_spec(str@.subrange(a, b)),
            None => r is None,
        },
{
    let v = str_chars(str);
    let (ks, km) = char_range_of(&v, start, max);
    match scan_link_destination(&v, ks, km) {
        Some((e, a, b)) => {
            proof {
                lemma_char_index_of(v@, max as int);
                lemma_byte_offset_mono(v@, e as int, km as int);
                lemma_char_index_of(v@, start as int);
            }
            let pos = advance_offset(&v, ks, e, start);
            let lines = newlines_in(&v, a, b);
            Some(ParseLinkFragmentResult { pos, lines, str: unescape_range(&v, a, b) })
        },
        None => None,
    }
}

/// Helper function used to parse `"title"` part of the links (with `'title'` or `(title)` alternative syntax).
///
/// `start` and `max` are byte offsets of character boundaries of `str`; the
/// returned `pos` is the byte offset just past the closing marker.
pub fn parse_link_title(str: &str, start: usize, max: usize) -> (r: Option<ParseLinkFragmentResult>)
    requires
        start <= max,
        is_char_offset(str@, start as int),
        is_char_offset(str@, max as int),
    ensures
        match link_title_spec(
            str@,
            char_index_of(str@, start as int),
            char_index_of(str@, max as int),
        ) {
            Some((e, a, b, l)) => r matches Some(res) && res.pos == byte_offset(str@, e) && res.lines
                == l && res.str@ == unescape_spec(str@.subrange(a, b)),
            None => r is None,
        },
{
    let v = str_chars(str);
    let (ks, km) = char_range_of(&v, start, max);
    match scan_link_title(&v, ks, km) {
        Some((e, a, b, l)) => {
            proof {
                lemma_char_index_of(v@, max as int);
                lemma_byte_offset_mono(v@, e as int, km as int);
                lemma_char_index_of(v@, start as int);
            }
            let pos = advance_offset(&v, ks, e, start);
            Some(ParseLinkFragmentResult { pos, lines: l, str: unescape_range(&v, a, b) })
        },
        None => None,
    }
}

/// Result of parsing a link: where its label lies, its destination and
/// title, and the position just past it.
pub struct ParseLinkResult {
    pub label_start: usize,
    pub label_end: usize,
    pub href: Option<String>,
    pub title: Option<String>,
    pub end: usize,
}

/// A link found by [parse_link] as plain values: label end, destination,
/// title and end.
pub open spec fn result_model(r: Option<ParseLinkResult>) -> Option<(int, Option<Seq<char>>, Option<Seq<char>>, int)> {
    match r {
        Some(res) => Some((res.label_end as int, opt_view(res.href), opt_view(res.title), res.end as int)),
        None => None,
    }
}

/// The link rule follows [link_ctl]: its result and the state it leaves
/// are those that the control state and the input determine.
#[verifier::opaque]
pub open spec fn link_rule_follows(o: InlineState, f: InlineState, r: Option<usize>, offset: usize, enable_nested: bool) -> bool {
    (ctl_of(f), match r {
        Some(len) => Some(len as int),
        None => None,
    }) == link_ctl(cx_of(o), ctl_of(o), enable_nested, offset as int)
}

/// The link node that the link rule appends is the one [link_tok]
/// describes.
#[verifier::opaque]
pub open spec fn link_rule_node(o: InlineState, f: InlineState, r: Option<usize>, prefix: char, offset: usize, enable_nested: bool) -> bool {
    r is Some ==> f.node.children@.len() > 0 && node_tok(f.node.children@.last()) == link_tok(
        cx_of(o),
        ctl_of(o),
        enable_nested,
        offset as int,
        prefix,
    )
}

/// What the link rule guarantees: see [link_rule_frame], [link_rule_found],
/// [link_rule_decided], [link_rule_follows] and [link_rule_node].
pub open spec fn link_rule_post(
    o: InlineState,
    f: InlineState,
    r: Option<usize>,
    prefix: char,
    offset: usize,
    enable_nested: bool,
) -> bool {
    &&& link_rule_frame(o, f, r)
    &&& link_rule_found(o, f, r, prefix, offset)
    &&& link_rule_decided(o, f, r, prefix, offset, enable_nested)
    &&& link_rule_follows(o, f, r, offset, enable_nested)
    &&& link_rule_node(o, f, r, prefix, offset, enable_nested)
}

/// The state stays well formed with the same input, limits and nesting;
/// when no link is found, position and node are unchanged.
pub open spec fn link_rule_frame(o: InlineState, f: InlineState, r: Option<usize>) -> bool {
    &&& f.wf()
    &&& same_frame(f, o)
    &&& f.pos_max == o.pos_max
    &&& f.link_level == o.link_level
    &&& labels_kept(o.inline_env, f.inline_env)
    &&& r is None ==> f.pos == o.pos && f.node == o.node
}

/// When a link is found, the returned length brings the position past it
/// and exactly one link node is appended to the current node.
pub open spec fn link_rule_found(o: InlineState, f: InlineState, r: Option<usize>, prefix: char, offset: usize) -> bool {
    r matches Some(len) ==> {
        &&& o.pos < f.pos + len <= f.pos_max
        &&& f.node.value == o.node.value
        &&& f.node.children@.len() == o.node.children@.len() + 1
        &&& f.node.children@.take(o.node.children@.len() as int) == o.node.children@
        &&& exists|label_end: int| #[trigger] link_shape(o, f.node.children@.last(), prefix, offset as int, label_end, f.pos + len)
    }
}

/// When the outcome is decided before tokens are looked at: a label with
/// no `]` after its `[` gives no link, and so does a refused label; for a
/// label whose end is known (see [known_label_end]) there is a link exactly
/// when an inline part follows or the reference it names has a definition
/// (see [plain_reference]), and the link node is that of this label end.
/// A label that meets a link after plain text (see [nested_link_at]) gives
/// no link unless nesting is enabled; with nesting, when that link ends at
/// a `]` (see [nested_label_end]), the label closes there.
pub open spec fn link_rule_decided(
    o: InlineState,
    f: InlineState,
    r: Option<usize>,
    prefix: char,
    offset: usize,
    enable_nested: bool,
) -> bool {
    &&& (!o.inline_env.link_labels@.contains_key((o.pos + offset) as usize) && forall|j: int|
        o.pos + offset < j < o.pos_max ==> o.src@[j] != ']') ==> r is None
    &&& plain_label_end(o, o.pos + offset) matches Some(e) ==> (r is Some ==> holds_label_text(
        f.node.children@.last(),
        o.src@.subrange(o.pos + offset + 1, e),
    ))
    &&& known_label_end(o, o.pos + offset, enable_nested) matches Some(None) ==> r is None
    &&& forall|q: int|
        #[trigger] nested_link_at(o, o.pos + offset, q) && !o.inline_env.link_labels@.contains_key(
            (o.pos + offset) as usize,
        ) && !enable_nested ==> r is None
    &&& forall|q: int|
        #[trigger] nested_link_at(o, o.pos + offset, q) && !o.inline_env.link_labels@.contains_key(
            (o.pos + offset) as usize,
        ) && enable_nested && nested_label_end(o, q) is Some ==> {
            let t = nested_label_end(o, q).unwrap();
            &&& inline_link_spec(o.src@, t, o.pos_max as int) is Some ==> r is Some
            &&& r matches Some(len) ==> link_shape(o, f.node.children@.last(), prefix, offset as int, t, f.pos + len)
        }
    &&& known_label_end(o, o.pos + offset, enable_nested) matches Some(Some(e)) ==> {
        &&& e >= o.pos_max ==> r is None
        &&& (e < o.pos_max && inline_link_spec(o.src@, e, o.pos_max as int) is Some) ==> r is Some
        &&& (o.pos + offset < e < o.pos_max && inline_link_spec(o.src@, e, o.pos_max as int) is None)
            ==> match plain_reference(o, o.pos + offset, e) {
            Some((Some(d), rend)) => {
                &&& r matches Some(len) && f.pos + len == rend
                &&& f.node.children@.last().value matches NodeValue::Link { url, title, .. } && url == Some(
                    d.destination,
                ) && title == d.title
            },
            Some((None, _)) => r is None,
            None => true,
        }
        &&& r matches Some(len) ==> link_shape(o, f.node.children@.last(), prefix, offset as int, e, f.pos + len)
    }
}

/// The end of the label of a link that the link rule is known to find at
/// the current position of `o`, its label opening `offset` characters
/// after it: the label end is known (see [known_label_end]) and an inline
/// part or a defined reference follows.
pub open spec fn link_found_at(o: InlineState, offset: int, enable_nested: bool) -> Option<int> {
    match known_label_end(o, o.pos + offset, enable_nested) {
        Some(Some(e)) => if e < o.pos_max && (inline_link_spec(o.src@, e, o.pos_max as int) is Some || (o.pos
            + offset < e && plain_reference(o, o.pos + offset, e) matches Some((Some(_), _)))) {
            Some(e)
        } else {
            None
        },
        _ => None,
    }
}

/// Where a link that the link rule is known to find at the current
/// position of `o` ends (see [link_found_at]): past the inline part after
/// its label or, failing that, past the reference it names.
pub open spec fn link_end_at(o: InlineState, offset: int, enable_nested: bool) -> Option<int> {
    match link_found_at(o, offset, enable_nested) {
        Some(e) => match inline_link_spec(o.src@, e, o.pos_max as int) {
            Some((_, _, end)) => Some(end),
            None => match plain_reference(o, o.pos + offset, e) {
                Some((_, rend)) => Some(rend),
                None => None,
            },
        },
        None => None,
    }
}

/// For a link found at `q` inside a label (see [nested_link_at]): the
/// position where it ends, when a `]` stands there and so closes the label.
pub open spec fn nested_label_end(st: InlineState, q: int) -> Option<int> {
    match first_link_rule(at_position(st, q)) {
        Some((offset, _, nested)) => match link_end_at(at_position(st, q), offset as int, nested) {
            Some(t) => if 0 <= t < st.pos_max && st.src@[t] == ']' {
                Some(t)
            } else {
                None
            },
            None => None,
        },
        None => None,
    }
}

/// A link that the rule is known to find ends where [link_end_at] says.
proof fn lemma_link_end_at(
    o: InlineState,
    f: InlineState,
    len: usize,
    prefix: char,
    offset: usize,
    nested: bool,
)
    requires
        link_rule_post(o, f, Some(len), prefix, offset, nested),
        link_found_at(o, offset as int, nested) is Some,
    ensures
        link_end_at(o, offset as int, nested) == Some(f.pos + len),
{
    let e = link_found_at(o, offset as int, nested).unwrap();
    assert(known_label_end(o, o.pos + offset, nested) == Some(Some(e)));
    match inline_link_spec(o.src@, e, o.pos_max as int) {
        Some((_, _, end)) => {
            assert(link_shape(o, f.node.children@.last(), prefix, offset as int, e, f.pos + len));
        },
        None => {},
    }
}

/// `node` is the link node for a link with the given prefix whose label
/// opens `offset` characters after the current position of `o` and closes
/// at `label_end`, and which ends at `end`: its destination and title are
/// those of the inline part after the label or, failing that, of the
/// reference definition of its label.
pub open spec fn link_shape(o: InlineState, node: Node, prefix: char, offset: int, label_end: int, end: int) -> bool {
    &&& o.pos + offset <= label_end < end <= o.pos_max
    &&& node.srcmap == source_range(o, o.pos as int, end)
    &&& node.value matches NodeValue::Link { prefix: p, url, title } && p == prefix && match inline_link_spec(o.src@, label_end, o.pos_max as int) {
        Some((h, t, e)) => opt_view(url) == h && opt_view(title) == t && e == end,
        None => reference_result(o, ParseLinkResult {
            label_start: (o.pos + offset + 1) as usize,
            label_end: label_end as usize,
            href: url,
            title,
            end: end as usize,
        }),
    }
}

/// [link_rule_post] for a state and result returned together.
pub open spec fn link_rule_post_pair(
    o: InlineState,
    res: (InlineState, Option<usize>),
    prefix: char,
    offset: usize,
    enable_nested: bool,
) -> bool {
    let (f, r) = res;
    link_rule_post(o, f, r, prefix, offset, enable_nested)
}

/// Scanning a label from `j`: the position of the first `]`, when no
/// character before it can start a token or was the start of an earlier
/// label scan.
pub open spec fn plain_label_from(st: InlineState, j: int) -> Option<int>
    decreases st.pos_max - j,
{
    if j < 0 || j >= st.pos_max {
        None
    } else if st.src@[j] == ']' {
        Some(j)
    } else if starts_token(st.md.inline.rules@, st.src@[j]) || st.inline_env.link_labels@.contains_key(
        j as usize,
    ) {
        None
    } else {
        plain_label_from(st, j + 1)
    }
}

/// The closing `]` of a label opening at `start` that holds plain text
/// only: no character of it can start a token, and neither its `[` nor any
/// position inside was the start of an earlier label scan.
pub open spec fn plain_label_end(st: InlineState, start: int) -> Option<int> {
    if st.inline_env.link_labels@.contains_key(start as usize) {
        None
    } else {
        plain_label_from(st, start + 1)
    }
}

/// Scanning a label from `j` over plain text and spans: the position of
/// the first `]` met, when each character before it either is plain text
/// that was not the start of an earlier label scan, or opens a span that
/// the first rule able to start a token there finds (with a marker other
/// than `[`), the scan going on after that span.
pub open spec fn span_label_from(st: InlineState, j: int) -> Option<int>
    decreases st.pos_max - j,
{
    if j < 0 || j >= st.pos_max {
        None
    } else if st.src@[j] == ']' {
        Some(j)
    } else if !starts_token(st.md.inline.rules@, st.src@[j]) {
        if st.inline_env.link_labels@.contains_key(j as usize) {
            None
        } else {
            span_label_from(st, j + 1)
        }
    } else {
        match first_span_rule(at_position(st, j)) {
            Some(m) => if m != '[' {
                match span_at(st.src@, j, st.pos_max as int, m) {
                    Some((_, me, _, _)) => if j < me <= st.pos_max {
                        span_label_from(st, me)
                    } else {
                        None
                    },
                    None => None,
                }
            } else {
                None
            },
            None => None,
        }
    }
}

proof fn lemma_span_label_frame(a: InlineState, b: InlineState, j: int)
    requires
        a.src == b.src,
        a.pos_max == b.pos_max,
        a.md == b.md,
        forall|k: int|
            j <= k < a.pos_max ==> (#[trigger] a.inline_env.link_labels@.contains_key(k as usize)
                == b.inline_env.link_labels@.contains_key(k as usize)),
    ensures
        span_label_from(a, j) == span_label_from(b, j),
    decreases a.pos_max - j,
{
    if 0 <= j < a.pos_max && a.src@[j] != ']' {
        assert(first_span_rule(at_position(a, j)) == first_span_rule(at_position(b, j)));
        if !starts_token(a.md.inline.rules@, a.src@[j]) {
            lemma_span_label_frame(a, b, j + 1);
        } else {
            match first_span_rule(at_position(a, j)) {
                Some(m) => match span_at(a.src@, j, a.pos_max as int, m) {
                    Some((_, me, _, _)) => {
                        if j < me <= a.pos_max {
                            lemma_span_label_frame(a, b, me);
                        }
                    },
                    None => {},
                },
                None => {},
            }
        }
    }
}

proof fn lemma_span_label_bounds(st: InlineState, j: int)
    ensures
        span_label_from(st, j) matches Some(k) ==> 0 <= j <= k < st.pos_max && st.src@[k] == ']',
    decreases st.pos_max - j,
{
    if 0 <= j < st.pos_max && st.src@[j] != ']' {
        if !starts_token(st.md.inline.rules@, st.src@[j]) {
            lemma_span_label_bounds(st, j + 1);
        } else {
            match first_span_rule(at_position(st, j)) {
                Some(m) => match span_at(st.src@, j, st.pos_max as int, m) {
                    Some((_, me, _, _)) => {
                        if j < me <= st.pos_max {
                            lemma_span_label_bounds(st, me);
                        }
                    },
                    None => {},
                },
                None => {},
            }
        }
    }
}

/// The closing `]` of a label opening at `start` that holds plain text and
/// spans only (see [span_label_from]), when neither its `[` was the start
/// of an earlier label scan nor any span cache has seen a whole scan fail.
pub open spec fn span_label_end(st: InlineState, start: int) -> Option<int> {
    if st.inline_env.link_labels@.contains_key(start as usize) || !all_unscanned(
        st.inline_env.backticks@,
    ) {
        None
    } else {
        span_label_from(st, start + 1)
    }
}

/// What a cached label scan answers: the label end, when the scan found
/// one and either nesting is enabled or no nested link was found.
pub open spec fn label_answer(entry: (usize, bool, bool), enable_nested: bool) -> Option<usize> {
    if entry.2 && (enable_nested || !entry.1) {
        Some((entry.0 - 1) as usize)
    } else {
        None
    }
}

/// Allowing nested links never loses a label end found without them, and a
/// cached scan keeps giving the same answer while its entry is kept.
pub proof fn lemma_label_answer(entry: (usize, bool, bool), a: InlineEnv, b: InlineEnv, start: usize)
    ensures
        label_answer(entry, false) matches Some(e) ==> label_answer(entry, true) == Some(e),
        labels_kept(a, b) && a.link_labels@.contains_key(start) ==> forall|n: bool|
            label_answer(b.link_labels@[start], n) == #[trigger] label_answer(a.link_labels@[start], n),
{
}

/// What is known, before a label opening at `start` is parsed, of where it
/// closes: `Some(Some(e))` when it closes at `e`, `Some(None)` when it is
/// refused, and `None` when that depends on the tokens inside it. A label
/// scanned before closes where that scan ended, unless it holds a nested
/// link and `enable_nested` is off; a label of plain text closes at its
/// first `]`, and so does one of plain text and spans at the first `]`
/// outside its spans.
pub open spec fn known_label_end(st: InlineState, start: int, enable_nested: bool) -> Option<Option<int>> {
    if st.inline_env.link_labels@.contains_key(start as usize) {
        Some(
            match label_answer(st.inline_env.link_labels@[start as usize], enable_nested) {
                Some(e) => Some(e as int),
                None => None,
            },
        )
    } else {
        match plain_label_end(st, start) {
            Some(e) => Some(Some(e)),
            None => match span_label_end(st, start) {
                Some(e) => Some(Some(e)),
                None => None,
            },
        }
    }
}

/// `node` holds the text `t` of a label of plain text: no children for an
/// empty label, one text node with `t` otherwise.
pub open spec fn holds_label_text(node: Node, t: Seq<char>) -> bool {
    if t.len() == 0 {
        node.children@.len() == 0
    } else {
        &&& node.children@.len() == 1
        &&& node.children@[0].value matches NodeValue::Text { content } && content@ == t
    }
}

proof fn lemma_plain_label_chars(st: InlineState, j: int)
    ensures
        plain_label_from(st, j) matches Some(e) ==> forall|i: int|
            j <= i < e ==> !starts_token(st.md.inline.rules@, #[trigger] st.src@[i]),
    decreases st.pos_max - j,
{
    if 0 <= j < st.pos_max && st.src@[j] != ']' {
        lemma_plain_label_chars(st, j + 1);
    }
}

/// The state `st` with its position moved to `q`.
pub open spec fn at_position(st: InlineState, q: int) -> InlineState {
    InlineState { pos: q as usize, ..st }
}

/// The label opening at `start` meets at `q` a `[` where a link is found
/// (see [link_found_at]), after plain text only: no character between is a
/// `]`, can start a token or was the start of an earlier label scan.
pub open spec fn nested_link_at(st: InlineState, start: int, q: int) -> bool {
    &&& start < q < st.pos_max
    &&& st.src@[q] == '['
    &&& forall|k: int|
        start < k < q ==> #[trigger] st.src@[k] != ']' && !starts_token(st.md.inline.rules@, st.src@[k])
            && !st.inline_env.link_labels@.contains_key(k as usize)
    &&& first_link_rule(at_position(st, q)) matches Some((offset, _, nested)) && link_found_at(
        at_position(st, q),
        offset as int,
        nested,
    ) is Some
}

/// Whether a link is found at the current position does not depend on the
/// current node.
proof fn lemma_link_found_node_free(a: InlineState, b: InlineState)
    requires
        a.src == b.src,
        a.pos == b.pos,
        a.pos_max == b.pos_max,
        a.md == b.md,
        a.inline_env == b.inline_env,
        a.references == b.references,
    ensures
        first_link_rule(a) == first_link_rule(b),
        forall|offset: int, nested: bool| #[trigger] link_found_at(a, offset, nested) == link_found_at(b, offset, nested),
        forall|offset: int, nested: bool| #[trigger] link_end_at(a, offset, nested) == link_end_at(b, offset, nested),
{
    assert forall|j: int| #[trigger] plain_label_from(a, j) == plain_label_from(b, j) by {
        lemma_plain_label_frame(a, b, j);
    }
    assert forall|j: int| #[trigger] span_label_from(a, j) == span_label_from(b, j) by {
        lemma_span_label_frame(a, b, j);
    }
    assert forall|offset: int, nested: bool| #[trigger] link_found_at(a, offset, nested) == link_found_at(b, offset, nested) by {
        assert(known_label_end(a, a.pos + offset, nested) == known_label_end(b, b.pos + offset, nested));
        match known_label_end(a, a.pos + offset, nested) {
            Some(Some(e)) => {
                assert(plain_reference(a, a.pos + offset, e) == plain_reference(b, b.pos + offset, e));
            },
            _ => {},
        }
    }
    assert forall|offset: int, nested: bool| #[trigger] link_end_at(a, offset, nested) == link_end_at(b, offset, nested) by {
        assert(link_found_at(a, offset, nested) == link_found_at(b, offset, nested));
        match link_found_at(a, offset, nested) {
            Some(e) => {
                assert(plain_reference(a, a.pos + offset, e) == plain_reference(b, b.pos + offset, e));
            },
            None => {},
        }
    }
}

/// A label whose characters from `j` up to a `]` at `e` neither are `]`,
/// start a token, nor start an earlier label scan ends at `e`.
pub proof fn lemma_plain_label_run(st: InlineState, j: int, e: int)
    requires
        0 <= j <= e < st.pos_max <= st.src@.len(),
        st.src@[e] == ']',
        forall|k: int|
            j <= k < e ==> #[trigger] st.src@[k] != ']' && !starts_token(st.md.inline.rules@, st.src@[k])
                && !st.inline_env.link_labels@.contains_key(k as usize),
    ensures
        plain_label_from(st, j) == Some(e),
    decreases e - j,
{
    if j < e {
        lemma_plain_label_run(st, j + 1, e);
    }
}

proof fn lemma_plain_label_bounds(st: InlineState, j: int)
    ensures
        plain_label_from(st, j) matches Some(k) ==> 0 <= j <= k < st.pos_max && st.src@[k] == ']',
    decreases st.pos_max - j,
{
    if 0 <= j < st.pos_max && st.src@[j] != ']' {
        lemma_plain_label_bounds(st, j + 1);
    }
}

/// Parses a link label: this function assumes that the first character
/// (`[`) is at `start`, and returns the position of the closing `]`.
/// Tokens inside the label are skipped with the inline rules, so that a `]`
/// inside them does not end the label; a label holding a nested link is
/// refused unless `enable_nested`. Scans are cached by start position.
#[verifier::rlimit(100)]
#[verifier::spinoff_prover]
fn parse_link_label(state: &mut InlineState, start: usize, enable_nested: bool) -> (r: Option<usize>)
    requires
        old(state).wf(),
        old(state).pos <= start < old(state).pos_max,
    ensures
        final(state).wf(),
        same_frame(*final(state), *old(state)),
        final(state).pos == old(state).pos,
        final(state).pos_max == old(state).pos_max,
        final(state).link_level == old(state).link_level,
        final(state).node == old(state).node,
        r matches Some(e) ==> start < e < final(state).src@.len() && old(state).src@[e as int] == ']',
        final(state).inline_env.link_labels@.contains_key(start),
        r == label_answer(final(state).inline_env.link_labels@[start], enable_nested),
        (ctl_of(*final(state)), match r {
            Some(e) => Some(e as int),
            None => None,
        }) == label_ctl(cx_of(*old(state)), ctl_of(*old(state)), start as int, enable_nested),
        labels_kept(old(state).inline_env, final(state).inline_env),
        !old(state).inline_env.link_labels@.contains_key(start) ==> (r matches Some(e) ==> start < e
            < old(state).pos_max && old(state).src@[e as int] == ']'),
        !old(state).inline_env.link_labels@.contains_key(start) && (forall|j: int|
            start < j < old(state).pos_max ==> old(state).src@[j] != ']') ==> r is None,
        old(state).inline_env.link_labels@.contains_key(start) ==> *final(state) == *old(state),
        forall|q: int|
            #[trigger] nested_link_at(*old(state), start as int, q) && !old(state).inline_env.link_labels@.contains_key(
                start,
            ) ==> final(state).inline_env.link_labels@[start].1 && (!enable_nested ==> r is None) && (enable_nested
                && nested_label_end(*old(state), q) is Some ==> r == Some(nested_label_end(*old(state), q).unwrap() as usize)),
        plain_label_end(*old(state), start as int) matches Some(e) ==> r == Some(e as usize)
            && final(state).inline_env.link_labels@ == old(state).inline_env.link_labels@.insert(
            start,
            ((e + 1) as usize, false, true),
        ) && final(state).inline_env.backticks == old(state).inline_env.backticks,
        span_label_end(*old(state), start as int) matches Some(e) ==> all_unscanned(final(state).inline_env.backticks@)
            && r == Some(e as usize)
            && final(state).inline_env.link_labels@ == old(state).inline_env.link_labels@.insert(
            start,
            ((e + 1) as usize, false, true),
        ),
    decreases old(state).pos_max - old(state).pos, 2int,
{
    match state.inline_env.link_labels.get(&start) {
        Some(entry) => {
            let (cached_pos, cached_nested, cached_found) = *entry;
            return if cached_found && (enable_nested || !cached_nested) {
                Some(cached_pos - 1)
            } else {
                None
            };
        },
        None => {},
    }
    let old_pos = state.pos;
    let mut found = false;
    let mut has_nested = false;
    let mut label_end: Option<usize> = None;
    state.pos = start + 1;
    let ghost cx = cx_of(*old(state));
    let ghost t0 = Ctl { pos: start + 1, last: None, ..ctl_of(*old(state)) };
    let ghost goal = label_loop(cx, t0, start as int, false);
    assert(Ctl { last: None, ..ctl_of(*state) } == t0);
    while state.pos < state.pos_max
        invariant_except_break
            cx == cx_of(*state),
            goal == label_loop(cx, Ctl { last: None, ..ctl_of(*state) }, start as int, has_nested),
            state.wf_any_pos(),
            same_frame(*state, *old(state)),
            state.pos > start,
            state.pos_max == old(state).pos_max,
            state.link_level == old(state).link_level,
            state.node == old(state).node,
            !found,
            start < state.pos_max,
            old(state).pos <= start,
            !old(state).inline_env.link_labels@.contains_key(start),
            labels_kept(old(state).inline_env, state.inline_env),
            forall|q: int|
                #[trigger] nested_link_at(*old(state), start as int, q) ==> (state.pos <= q ==> state.inline_env
                    == old(state).inline_env) && (state.pos > q ==> has_nested) && (state.pos > q && nested_label_end(
                    *old(state),
                    q,
                ) is Some ==> state.pos == nested_label_end(*old(state), q).unwrap()),
            span_label_end(*old(state), start as int) is Some ==> state.inline_env.link_labels
                == old(state).inline_env.link_labels && all_unscanned(state.inline_env.backticks@) && !has_nested
                && span_label_from(*old(state), state.pos as int) == span_label_end(*old(state), start as int),
            plain_label_end(*old(state), start as int) is Some ==> state.inline_env
                == old(state).inline_env && !has_nested && plain_label_from(
                *old(state),
                state.pos as int,
            ) == plain_label_end(*old(state), start as int),
        ensures
            cx == cx_of(*state),
            goal == (Ctl { last: None, ..ctl_of(*state) }, found, has_nested),
            state.wf_any_pos(),
            same_frame(*state, *old(state)),
            state.pos > start,
            state.pos_max == old(state).pos_max,
            state.link_level == old(state).link_level,
            state.node == old(state).node,
            found ==> state.pos < state.pos_max && state.src@[state.pos as int] == ']',
            !found ==> state.pos >= state.pos_max,
            start < state.pos_max,
            !old(state).inline_env.link_labels@.contains_key(start),
            labels_kept(old(state).inline_env, state.inline_env),
            forall|q: int|
                #[trigger] nested_link_at(*old(state), start as int, q) ==> (state.pos <= q ==> state.inline_env
                    == old(state).inline_env) && (state.pos > q ==> has_nested) && (state.pos > q && nested_label_end(
                    *old(state),
                    q,
                ) is Some ==> state.pos == nested_label_end(*old(state), q).unwrap()),
            span_label_end(*old(state), start as int) is Some ==> state.inline_env.link_labels
                == old(state).inline_env.link_labels && all_unscanned(state.inline_env.backticks@) && !has_nested
                && span_label_from(*old(state), state.pos as int) == span_label_end(*old(state), start as int),
            plain_label_end(*old(state), start as int) is Some ==> found && state.inline_env
                == old(state).inline_env && !has_nested && plain_label_from(
                *old(state),
                state.pos as int,
            ) == plain_label_end(*old(state), start as int),
        decreases state.src@.len() - state.pos,
    {
        let ch = state.src[state.pos];
        if ch == ']' {
            found = true;
            break ;
        }
        let prev_pos = state.pos;
        let ghost has_nested_before = has_nested;
        let ghost env_before = state.inline_env;
        let mut oldroot = Node::empty();
        std::mem::swap(&mut state.node, &mut oldroot);
        let ghost sq = *state;
        let ghost nested_before = has_nested;
        assert(ctl_of(sq) == Ctl { last: None, ..ctl_of(*state) }) by {
            assert(trailing_text(sq.node).len() == 0);
        }
        let r = tokenize_one(state);
        let ghost sf = *state;
        std::mem::swap(&mut state.node, &mut oldroot);
        let found_nontext = match r {
            Some(b) => b,
            None => false,
        };
        if found_nontext {
            if ch == '[' {
                has_nested = true;
            }
        } else {
            match state.inline_env.link_labels.get(&prev_pos) {
                Some(entry) => {
                    let (cached_pos, cached_nested, _) = *entry;
                    if cached_nested {
                        has_nested = true;
                    }
                    state.pos = cached_pos;
                },
                None => {},
            }
        }
        proof {
            assert(cx_of(sq) == cx);
            assert(rules_from(cx, ctl_of(sq), 0) == (ctl_of(sf), found_nontext));
            assert(label_loop(cx, ctl_of(sq), start as int, nested_before) == label_loop(
                cx,
                Ctl { last: None, ..ctl_of(*state) },
                start as int,
                has_nested,
            ));
        }
        proof {
            if span_label_end(*old(state), start as int) is Some {
                if starts_token(old(state).md.inline.rules@, old(state).src@[prev_pos as int]) {
                    assert(first_span_rule(sq) == first_span_rule(at_position(*old(state), prev_pos as int)));
                    lemma_first_starting_rule(old(state).md.inline.rules@, ch, 0);
                    assert(sq.node.children@.len() == 0);
                } else {
                    assert(!old(state).inline_env.link_labels@.contains_key(prev_pos));
                }
            }
            assert forall|q: int| #[trigger] nested_link_at(*old(state), start as int, q) implies (state.pos <= q
                ==> state.inline_env == old(state).inline_env) && (state.pos > q ==> has_nested) && (state.pos > q
                && nested_label_end(*old(state), q) is Some ==> state.pos == nested_label_end(*old(state), q).unwrap()) by {
                if prev_pos < q {
                    assert(env_before == old(state).inline_env);
                    assert(old(state).src@[prev_pos as int] != ']' && !starts_token(
                        old(state).md.inline.rules@,
                        old(state).src@[prev_pos as int],
                    ) && !old(state).inline_env.link_labels@.contains_key(prev_pos));
                } else if prev_pos == q {
                    assert(env_before == old(state).inline_env);
                    lemma_link_found_node_free(sq, at_position(*old(state), q));
                    let (offset, prefix, nested) = first_link_rule(sq).unwrap();
                    let (f, len) = choose|f: InlineState, len: usize|
                        #[trigger] link_rule_post(sq, f, Some(len), prefix, offset, nested) && sf.node == f.node
                            && sf.pos == f.pos + len;
                    lemma_link_end_at(sq, f, len, prefix, offset, nested);
                }
            }
        }
    }
    proof {
        assert forall|q: int| #[trigger] nested_link_at(*old(state), start as int, q) implies has_nested by {
            if state.pos < q {
                assert(old(state).src@[state.pos as int] != ']');
            } else if state.pos == q {
                assert(old(state).src@[q] == '[');
            }
        }
    }
    if found {
        if !has_nested || enable_nested {
            label_end = Some(state.pos);
        }
        let v = state.pos + 1;
        state.inline_env.link_labels.insert(start, (v, has_nested, true));
    } else {
        let v = state.pos_max;
        state.inline_env.link_labels.insert(start, (v, has_nested, false));
    }
    state.pos = old_pos;
    label_end
}

/// Position of the first character at or after `i` that is not a space, a
/// tab or a newline.
pub open spec fn skip_spaces(s: Seq<char>, i: int, max: int) -> int
    decreases max - i,
{
    if i < max && (s[i] == ' ' || s[i] == '\t' || s[i] == '\n') {
        skip_spaces(s, i + 1, max)
    } else {
        i
    }
}

fn skip_spaces_exec(src: &Vec<char>, i: usize, max: usize) -> (r: usize)
    requires
        i <= max <= src.len(),
    ensures
        r == skip_spaces(src@, i as int, max as int),
        i <= r <= max,
{
    let mut p = i;
    while p < max && (src[p] == ' ' || src[p] == '\t' || src[p] == '\n')
        invariant
            i <= p <= max <= src.len(),
            skip_spaces(src@, i as int, max as int) == skip_spaces(src@, p as int, max as int),
        decreases max - p,
    {
        p = p + 1;
    }
    p
}

/// Views of an optional string.
pub open spec fn opt_view(o: Option<String>) -> Option<Seq<char>> {
    match o {
        Some(s) => Some(s@),
        None => None,
    }
}

/// The inline part `(destination "title")` of a link whose label ends at
/// `label_end`: the destination, unescaped and normalized (see
/// [percent_encoded]), when it is accepted, the title, and the
/// position just past the closing `)`. The title is only looked for after
/// a destination; a refused destination is skipped over as if absent.
pub open spec fn inline_link_spec(s: Seq<char>, label_end: int, max: int) -> Option<
    (Option<Seq<char>>, Option<Seq<char>>, int),
> {
    let p = label_end + 1;
    if p < max && s[p] == '(' {
        let p1 = skip_spaces(s, p + 1, max);
        match link_destination_spec(s, p1, max) {
            None => if p1 < max && s[p1] == ')' {
                Some((None, None, p1 + 1))
            } else {
                None
            },
            Some((dend, a, b)) => {
                let h = percent_encoded(unescape_spec(s.subrange(a, b)));
                let valid = link_is_valid(h);
                let p2 = skip_spaces(s, if valid { dend } else { p1 }, max);
                let (title, p3) = match link_title_spec(s, p2, max) {
                    Some((tend, ta, tb, _)) => (Some(unescape_spec(s.subrange(ta, tb))), skip_spaces(s, tend, max)),
                    None => (None, p2),
                };
                if p3 < max && s[p3] == ')' {
                    Some((if valid { Some(h) } else { None }, title, p3 + 1))
                } else {
                    None
                }
            },
        }
    } else {
        None
    }
}

/// A link resolved through the reference definitions: its label (the
/// first label, or the second `[label]` when present and not empty) has a
/// definition, whose destination and title the link takes.
pub open spec fn reference_result(st: InlineState, res: ParseLinkResult) -> bool {
    &&& st.references matches Some(refs)
    &&& exists|a: int, b: int|
        {
            &&& ((a == res.label_start && b == res.label_end) || (a == res.label_end + 2 && b
                == res.end - 1 && a < b))
            &&& 0 <= a <= b <= st.src@.len()
            &&& #[trigger] find_reference(refs.entries@, normalize_label(st.src@.subrange(a, b)))
                matches Some(d) && res.href == Some(d.destination) && res.title == d.title
        }
}

/// The reference definition of `label` among the definitions of the state.
pub open spec fn definition_of(st: InlineState, label: Seq<char>) -> Option<Reference> {
    match st.references {
        Some(refs) => find_reference(refs.entries@, normalize_label(label)),
        None => None,
    }
}

/// For a label opening at `start` and closing at `e` that is not followed
/// by an inline part: the definition it refers to and the end of the link.
/// It refers through its own text unless a second label `[label]` follows
/// with non-empty text; the link then ends after the second label. A second
/// label that is refused leaves the first; one that ends past the limit
/// gives no link. Nothing is determined when the end of the second label
/// is not known (see [known_label_end]).
pub open spec fn plain_reference(st: InlineState, start: int, e: int) -> Option<(Option<Reference>, int)> {
    if e + 1 < st.pos_max && st.src@[e + 1] == '[' {
        match known_label_end(st, e + 1, false) {
            Some(Some(x)) => if x < st.pos_max {
                Some(
                    (
                        definition_of(
                            st,
                            if x > e + 2 {
                                st.src@.subrange(e + 2, x)
                            } else {
                                st.src@.subrange(start + 1, e)
                            },
                        ),
                        x + 1,
                    ),
                )
            } else {
                Some((None, x + 1))
            },
            Some(None) => Some((definition_of(st, st.src@.subrange(start + 1, e)), e + 1)),
            None => None,
        }
    } else {
        Some((definition_of(st, st.src@.subrange(start + 1, e)), e + 1))
    }
}

/// What is known of where a label closes depends only on the input, the
/// rules, the cached scans from its start on, and whether a span cache has
/// seen a whole scan fail.
proof fn lemma_known_label_frame(a: InlineState, b: InlineState, j: int, nested: bool)
    requires
        0 <= j,
        a.src == b.src,
        a.pos_max == b.pos_max,
        a.md == b.md,
        all_unscanned(a.inline_env.backticks@) == all_unscanned(b.inline_env.backticks@),
        j <= usize::MAX,
        forall|k: int|
            j <= k <= usize::MAX ==> (#[trigger] a.inline_env.link_labels@.contains_key(k as usize)
                == b.inline_env.link_labels@.contains_key(k as usize)),
        a.inline_env.link_labels@.contains_key(j as usize) ==> a.inline_env.link_labels@[j as usize]
            == b.inline_env.link_labels@[j as usize],
    ensures
        known_label_end(a, j, nested) == known_label_end(b, j, nested),
{
    lemma_plain_label_frame(a, b, j + 1);
    lemma_span_label_frame(a, b, j + 1);
}

proof fn lemma_plain_label_frame(a: InlineState, b: InlineState, j: int)
    requires
        a.src == b.src,
        a.pos_max == b.pos_max,
        a.md == b.md,
        forall|k: int|
            j <= k < a.pos_max ==> (#[trigger] a.inline_env.link_labels@.contains_key(k as usize)
                == b.inline_env.link_labels@.contains_key(k as usize)),
    ensures
        plain_label_from(a, j) == plain_label_from(b, j),
    decreases a.pos_max - j,
{
    if 0 <= j < a.pos_max {
        lemma_plain_label_frame(a, b, j + 1);
    }
}

/// Parses the inline part `(destination "title")` after a label that ends
/// at `label_end` (see [inline_link_spec]).
fn scan_inline_part(src: &Vec<char>, label_end: usize, max: usize) -> (r: Option<
    (Option<String>, Option<String>, usize),
>)
    requires
        label_end < max <= src.len(),
    ensures
        match inline_link_spec(src@, label_end as int, max as int) {
            Some((h, t, e)) => r matches Some((href, title, end)) && opt_view(href) == h && opt_view(title)
                == t && end == e,
            None => r is None,
        },
        r matches Some((_, _, end)) ==> label_end < end <= max,
{
    let mut p = label_end + 1;
    if !(p < max && src[p] == '(') {
        return None;
    }
    let mut href: Option<String> = None;
    let mut title: Option<String> = None;
    p = skip_spaces_exec(src, p + 1, max);
    let ghost p1 = p;
    match scan_link_destination(src, p, max) {
        Some((dend, a, b)) => {
            let unescaped = unescape_range(src, a, b);
            let normalized = normalize_link(unescaped.as_str());
            let candidate = str_chars(normalized.as_str());
            let valid = validate_link(&candidate);
            if valid {
                p = dend;
                href = Some(normalized);
            }
            p = skip_spaces_exec(src, p, max);
            match scan_link_title(src, p, max) {
                Some((tend, ta, tb, _)) => {
                    title = Some(unescape_range(src, ta, tb));
                    p = skip_spaces_exec(src, tend, max);
                },
                None => {},
            }
            assert(opt_view(href) == (if valid {
                Some(percent_encoded(unescape_spec(src@.subrange(a as int, b as int))))
            } else {
                None
            }));
        },
        None => {
            assert(href is None && title is None && p == p1);
        },
    }
    if p < max && src[p] == ')' {
        assert(inline_link_spec(src@, label_end as int, max as int) == Some(
            (opt_view(href), opt_view(title), p + 1),
        ));
        return Some((href, title, p + 1));
    }
    assert(inline_link_spec(src@, label_end as int, max as int) is None);
    None
}

/// Parses `[link](<to> "stuff")`: this function assumes that the first
/// character (`[`) of the label is at `pos`. After the label comes either
/// an inline part `(destination "title")`, or a reference: `[label]`,
/// `[]` or nothing, resolved through the reference definitions.
#[verifier::rlimit(30)]
fn parse_link(state: &mut InlineState, pos: usize, enable_nested: bool) -> (r: Option<ParseLinkResult>)
    requires
        old(state).wf(),
        old(state).pos <= pos < old(state).pos_max,
    ensures
        final(state).wf(),
        same_frame(*final(state), *old(state)),
        final(state).pos == old(state).pos,
        final(state).pos_max == old(state).pos_max,
        final(state).link_level == old(state).link_level,
        final(state).node == old(state).node,
        labels_kept(old(state).inline_env, final(state).inline_env),
        r matches Some(res) ==> res.label_start == pos + 1 && res.label_start <= res.label_end && res.label_end
            < res.end <= old(state).pos_max && old(state).src@[res.label_end as int] == ']',
        r matches Some(res) ==> match inline_link_spec(old(state).src@, res.label_end as int, old(state).pos_max as int) {
            Some((h, t, e)) => opt_view(res.href) == h && opt_view(res.title) == t && res.end == e,
            None => reference_result(*old(state), res),
        },
        (!old(state).inline_env.link_labels@.contains_key(pos) && forall|j: int|
            pos < j < old(state).pos_max ==> old(state).src@[j] != ']') ==> r is None,
        known_label_end(*old(state), pos as int, enable_nested) matches Some(None) ==> r is None,
        forall|q: int|
            #[trigger] nested_link_at(*old(state), pos as int, q) && !old(state).inline_env.link_labels@.contains_key(
                pos,
            ) && !enable_nested ==> r is None,
        forall|q: int|
            #[trigger] nested_link_at(*old(state), pos as int, q) && !old(state).inline_env.link_labels@.contains_key(
                pos,
            ) && enable_nested && nested_label_end(*old(state), q) is Some ==> {
                let t = nested_label_end(*old(state), q).unwrap();
                &&& r matches Some(res) ==> res.label_end == t
                &&& inline_link_spec(old(state).src@, t, old(state).pos_max as int) is Some ==> r is Some
            },
        known_label_end(*old(state), pos as int, enable_nested) matches Some(Some(e)) ==> {
            &&& r matches Some(res) ==> res.label_end == e
            &&& e >= old(state).pos_max ==> r is None
            &&& (e < old(state).pos_max && inline_link_spec(old(state).src@, e, old(state).pos_max as int) is Some) ==> r is Some
            &&& (pos < e < old(state).pos_max && inline_link_spec(old(state).src@, e, old(state).pos_max as int) is None) ==> match plain_reference(*old(state), pos as int, e) {
                Some((Some(d), end)) => r matches Some(res) && res.end == end && res.href == Some(d.destination) && res.title == d.title,
                Some((None, _)) => r is None,
                None => true,
            }
        },
        (ctl_of(*final(state)), result_model(r)) == parse_link_ctl(cx_of(*old(state)), ctl_of(*old(state)), pos as int, enable_nested),
    decreases old(state).pos_max - old(state).pos, 4int,
{
    proof {
        lemma_plain_label_bounds(*old(state), pos + 1);
        lemma_span_label_bounds(*old(state), pos + 1);
    }
    let label = parse_link_label(state, pos, enable_nested);
    proof {
        assert forall|q: int|
            #[trigger] nested_link_at(*old(state), pos as int, q) && !old(state).inline_env.link_labels@.contains_key(
                pos,
            ) && enable_nested && nested_label_end(*old(state), q) is Some implies label is Some
                && label.unwrap() as int == nested_label_end(*old(state), q).unwrap() by {
                assert(0 <= nested_label_end(*old(state), q).unwrap() < old(state).pos_max);
            }
    }
    let label_end = match label {
        Some(e) => e,
        None => {
            return None;
        },
    };
    let max = state.pos_max;
    if label_end >= max {
        return None;
    }
    let label_start = pos + 1;
    match scan_inline_part(&state.src, label_end, max) {
        Some((href, title, end)) => {
            return Some(ParseLinkResult { label_start, label_end, href, title, end });
        },
        None => {},
    }
    proof {
        if plain_label_end(*old(state), pos as int) is Some || span_label_end(*old(state), pos as int) is Some {
            assert forall|k: int| label_end + 1 <= k <= usize::MAX implies (
                #[trigger] state.inline_env.link_labels@.contains_key(k as usize)
                == old(state).inline_env.link_labels@.contains_key(k as usize)) by {
                assert(k as usize != pos);
            }
            assert((label_end + 1) as usize != pos);
            if plain_label_end(*old(state), pos as int) is Some {
                assert(state.inline_env.backticks == old(state).inline_env.backticks);
            }
            lemma_known_label_frame(*state, *old(state), label_end + 1, false);
            assert(plain_reference(*state, pos as int, label_end as int) == plain_reference(
                *old(state),
                pos as int,
                label_end as int,
            ));
        }
    }
    resolve_reference(state, pos, label_end)
}

/// Resolves a link whose label opens at `pos` and closes at `label_end`
/// through the reference definitions: by a second label `[label]` when one
/// follows and is not empty, by its own label otherwise.
#[verifier::rlimit(60)]
#[verifier::spinoff_prover]
fn resolve_reference(state: &mut InlineState, pos: usize, label_end: usize) -> (r: Option<ParseLinkResult>)
    requires
        old(state).wf(),
        old(state).pos <= pos < label_end < old(state).pos_max,
    ensures
        final(state).wf(),
        same_frame(*final(state), *old(state)),
        final(state).pos == old(state).pos,
        final(state).pos_max == old(state).pos_max,
        final(state).link_level == old(state).link_level,
        final(state).node == old(state).node,
        labels_kept(old(state).inline_env, final(state).inline_env),
        r matches Some(res) ==> res.label_start == pos + 1 && res.label_end == label_end && label_end
            < res.end <= old(state).pos_max && reference_result(*old(state), res),
        pos < label_end ==> match plain_reference(*old(state), pos as int, label_end as int) {
            Some((Some(d), end)) => r matches Some(res) && res.end == end && res.href == Some(d.destination)
                && res.title == d.title,
            Some((None, _)) => r is None,
            None => true,
        },
        (ctl_of(*final(state)), result_model(r)) == reference_ctl(cx_of(*old(state)), ctl_of(*old(state)), pos as int, label_end as int),
    decreases old(state).pos_max - old(state).pos, 3int,
{
    let max = state.pos_max;
    let label_start = pos + 1;
    proof {
        lemma_plain_label_bounds(*old(state), label_end + 2);
    }
    let mut p = label_end + 1;
    let mut label_range: Option<(usize, usize)> = None;
    if p < max && state.src[p] == '[' {
        let ghost before = *state;
        proof {
            lemma_plain_label_bounds(before, p + 1);
            lemma_span_label_bounds(before, p + 1);
        }
        let second = parse_link_label(state, p, false);
        proof {
            if before.inline_env.link_labels@.contains_key(p) {
                assert(known_label_end(before, p as int, false) == Some(
                    match second {
                        Some(e) => Some(e as int),
                        None => None,
                    },
                ));
            } else if plain_label_end(before, p as int) is Some {
                assert(known_label_end(before, p as int, false) == Some(Some(second.unwrap() as int)));
            } else if span_label_end(before, p as int) is Some {
                assert(known_label_end(before, p as int, false) == Some(Some(second.unwrap() as int)));
            }
        }
        match second {
            Some(x) => {
                if x <= p || x >= max {
                    return None;
                }
                label_range = Some((p + 1, x));
                p = x + 1;
            },
            None => {
                p = label_end + 1;
            },
        }
    }
    match state.references {
        Some(refs) => {
            let (a, b) = match label_range {
                Some((a, b)) => if a < b {
                    (a, b)
                } else {
                    (label_start, label_end)
                },
                None => (label_start, label_end),
            };
            if a > b {
                return None;
            }
            let label = string_of_range(&state.src, a, b);
            match refs.get(label.as_str()) {
                Some(d) => {
                    let title = match &d.title {
                        Some(t) => Some(t.clone()),
                        None => None,
                    };
                    let res = ParseLinkResult {
                        label_start,
                        label_end,
                        href: Some(d.destination.clone()),
                        title,
                        end: p,
                    };
                    assert(find_reference(refs.entries@, normalize_label(state.src@.subrange(a as int, b as int))) == Some(*d));
                    assert(reference_result(*state, res));
                    assert(result_model(Some(res)) == lookup(cx_of(*state), a as int, b as int, label_end as int, p as int));
                    Some(res)
                },
                None => None,
            }
        },
        None => None,
    }
}

#[verifier::spinoff_prover]
#[verifier::rlimit(100)]
fn rule_body(state: &mut InlineState, enable_nested: bool, offset: usize, prefix: char) -> (r: Option<usize>)
    requires
        old(state).wf(),
        offset <= 1,
        old(state).pos + offset < old(state).pos_max,
    ensures
        link_rule_post(*old(state), *final(state), r, prefix, offset, enable_nested),
    decreases old(state).pos_max - old(state).pos, 6int,
{
    let start = state.pos;
    let pl = parse_link(state, start + offset, enable_nested);
    let ghost s1 = *state;
    let ghost cx = cx_of(*old(state));
    match pl {
        None => {
            assert(link_rule_follows(*old(state), *state, None, offset, enable_nested)) by {
                reveal(link_rule_follows);
            }
            assert(link_rule_node(*old(state), *state, None, prefix, offset, enable_nested)) by {
                reveal(link_rule_node);
            }
            None
        },
        Some(result) => {
            let ghost res = result;
            let ParseLinkResult { label_start, label_end, href, title, end } = result;
            let mut link = Node::new(NodeValue::Link { prefix, url: href, title });
            std::mem::swap(&mut state.node, &mut link);
            let max = state.pos_max;
            state.link_level = state.link_level + 1;
            proof {
                lemma_plain_label_chars(*old(state), start + offset + 1);
                lemma_plain_label_bounds(*old(state), start + offset + 1);
            }
            let ghost mut kid_toks: Seq<Tok> = Seq::empty();
            let ghost mut tout: Ctl = Ctl { pos: label_start as int, max: max as int, last: None, ..ctl_of(s1) };
            if label_start <= label_end {
                state.pos = label_start;
                state.pos_max = label_end;
                let ghost tin = ctl_of(*state);
                assert(tin == Ctl { pos: label_start as int, max: label_end as int, last: None, ..ctl_of(s1) }) by {
                    assert(trailing_text(state.node).len() == 0);
                }
                proof {
                    if plain_label_end(*old(state), start + offset) is Some {
                        assert(plain_text(*state));
                    }
                }
                tokenize(state);
                proof {
                    assert(cx_of(*state) == cx);
                    tout = Ctl { pos: label_end as int, max: max as int, last: None, ..tokenize_ctl(cx, tin) };
                    assert(ctl_of(*state) == tokenize_ctl(cx, tin));
                    kid_toks = tokens(cx, tin, Seq::empty());
                    assert(nodes_toks(Seq::<Node>::empty()) == Seq::<Tok>::empty());
                    assert(nodes_toks(state.node.children@) == kid_toks);
                }
                state.pos_max = max;
            } else {
                state.pos = label_start;
            }
            assert(children_are_parsed(state.node));
            assert(state.node.value is Link);
            std::mem::swap(&mut state.node, &mut link);
            let ghost link_children = link.children@;
            assert(children_are_parsed(link));
            link.srcmap = state.get_map(start, end);
            assert(link.children@ == link_children);
            assert(link.value is Link);
            proof {
                lemma_node_is_parsed(link);
            }
            let ghost before = state.node.children@;
            state.node.children.push(link);
            assert(state.node.children@.take(before.len() as int) =~= before);
            state.link_level = state.link_level - 1;
            assert(state.node.children@.last() == link);
            assert(res == ParseLinkResult {
                label_start: (old(state).pos + offset + 1) as usize,
                label_end: label_end,
                href: res.href,
                title: res.title,
                end: end,
            });
            assert(link_shape(*old(state), link, prefix, offset as int, label_end as int, end as int));
            let r = Some(end - state.pos);
            proof {
                if plain_label_end(*old(state), start + offset) is Some {
                    let t = old(state).src@.subrange(label_start as int, label_end as int);
                    if t.len() > 0 {
                        assert(link.children@[0] == link.children@.last());
                        assert(trailing_text(link) == t);
                    }
                    assert(holds_label_text(link, t));
                }
            }
            assert(state.pos + (end - state.pos) == end);
            assert(link_shape(*old(state), state.node.children@.last(), prefix, offset as int, label_end as int, state.pos + (end - state.pos)));
            assert(link_rule_frame(*old(state), *state, r));
            assert(link_rule_found(*old(state), *state, r, prefix, offset));
            assert(link_rule_decided(*old(state), *state, r, prefix, offset, enable_nested));
            proof {
                assert(trailing_text(state.node).len() == 0);
                assert(ctl_of(*state) == tout);
                assert(link_rule_follows(*old(state), *state, r, offset, enable_nested)) by {
                    reveal(link_rule_follows);
                }
                assert(nodes_toks(Seq::<Node>::empty()) == Seq::<Tok>::empty());
                assert(nodes_toks(link.children@) == kid_toks);
                assert(node_tok(link) == link_tok(cx, ctl_of(*old(state)), enable_nested, offset as int, prefix));
                assert(link_rule_node(*old(state), *state, r, prefix, offset, enable_nested)) by {
                    reveal(link_rule_node);
                }
            }
            r
        },
    }
}

/// The link rule: parses a link whose label opens at `offset` characters
/// after the current position, tokenizes its label into a new
/// [NodeValue::Link] node (with the given prefix) and appends that node.
/// The work runs with stack room reserved, since labels nest.
pub fn rule<'a>(state: &mut InlineState<'a>, enable_nested: bool, offset: usize, prefix: char) -> (r: Option<usize>)
    requires
        old(state).wf(),
        offset <= 1,
        old(state).pos + offset < old(state).pos_max,
    ensures
        link_rule_post(*old(state), *final(state), r, prefix, offset, enable_nested),
    decreases old(state).pos_max - old(state).pos, 8int,
{
    let mut taken = InlineState {
        src: Vec::new(),
        offsets: Vec::new(),
        pos: 0,
        pos_max: 0,
        md: state.md,
        node: Node::empty(),
        link_level: 0,
        srcmap: Vec::new(),
        inline_env: InlineEnv::new(),
        references: state.references,
    };
    std::mem::swap(state, &mut taken);
    let (back, r) = stacker::maybe_grow(
        64 * 1024,
        1024 * 1024,
        (move || -> (res: (InlineState<'a>, Option<usize>))
            requires
                taken.wf(),
                offset <= 1,
                taken.pos + offset < taken.pos_max,
            ensures
                link_rule_post_pair(taken, res, prefix, offset, enable_nested),
            {
                let mut st = taken;
                let r = rule_body(&mut st, enable_nested, offset, prefix);
                (st, r)
            }),
    );
    *state = back;
    r
}

/// The rules after adding `rule`, followed by the rule that marks `]` as
/// the end of a label unless it was already there.
pub open spec fn rules_with_link_rule(rules: Seq<InlineRuleKind>, rule: InlineRuleKind) -> Seq<InlineRuleKind> {
    if rules.contains(InlineRuleKind::LinkEnd(LinkScannerEnd)) {
        rules.push(rule)
    } else {
        rules.push(rule).push(InlineRuleKind::LinkEnd(LinkScannerEnd))
    }
}

/// Number of times `r` occurs in `rules`.
pub open spec fn occurrences(rules: Seq<InlineRuleKind>, r: InlineRuleKind) -> nat
    decreases rules.len(),
{
    if rules.len() == 0 {
        0
    } else {
        (if rules.last() == r { 1nat } else { 0nat }) + occurrences(rules.drop_last(), r)
    }
}

proof fn lemma_occurrences_contains(rules: Seq<InlineRuleKind>, r: InlineRuleKind)
    ensures
        rules.contains(r) <==> occurrences(rules, r) > 0,
    decreases rules.len(),
{
    if rules.len() > 0 {
        lemma_occurrences_contains(rules.drop_last(), r);
        if rules.contains(r) {
            let i = choose|i: int| 0 <= i < rules.len() && rules[i] == r;
            if i < rules.len() - 1 {
                assert(rules.drop_last()[i] == r);
            }
        }
        if rules.drop_last().contains(r) {
            let i = choose|i: int| 0 <= i < rules.drop_last().len() && rules.drop_last()[i] == r;
            assert(rules[i] == r);
        }
    }
}

/// Adding a link rule registers the end-of-label rule, and only once:
/// whatever number of link rules are added, it occurs exactly once when it
/// occurred at most once before.
pub proof fn lemma_link_end_registered_once(rules: Seq<InlineRuleKind>, rule: InlineRuleKind)
    requires
        !(rule is LinkEnd),
        occurrences(rules, InlineRuleKind::LinkEnd(LinkScannerEnd)) <= 1,
    ensures
        occurrences(rules_with_link_rule(rules, rule), InlineRuleKind::LinkEnd(LinkScannerEnd)) == 1,
        rules_with_link_rule(rules, rule).contains(rule),
{
    let end = InlineRuleKind::LinkEnd(LinkScannerEnd);
    lemma_occurrences_contains(rules, end);
    let pushed = rules.push(rule);
    assert(pushed.drop_last() =~= rules);
    assert(pushed.last() == rule);
    assert(occurrences(pushed, end) == occurrences(rules, end));
    assert(pushed[rules.len() as int] == rule);
    if !rules.contains(end) {
        let twice = pushed.push(end);
        assert(twice.drop_last() =~= pushed);
        assert(twice.last() == end);
        assert(occurrences(twice, end) == 1 + occurrences(pushed, end));
        assert(twice[rules.len() as int] == rule);
    }
}

/// adds custom rule with no prefix
pub fn add<const ENABLE_NESTED: bool>(md: &mut MarkdownIt)
    ensures
        final(md).inline.rules@ == rules_with_link_rule(
            old(md).inline.rules@,
            InlineRuleKind::Link(LinkScanner { enable_nested: ENABLE_NESTED }),
        ),
        final(md).core == old(md).core,
{
    let ghost o = md.inline.rules@;
    md.inline.add_rule(InlineRuleKind::Link(LinkScanner { enable_nested: ENABLE_NESTED }));
    assert(md.inline.rules@.drop_last() =~= o);
    add_link_end(md);
}

/// adds custom rule with given `prefix` character
pub fn add_prefix<const ENABLE_NESTED: bool>(md: &mut MarkdownIt, prefix: char)
    ensures
        final(md).inline.rules@ == rules_with_link_rule(
            old(md).inline.rules@,
            InlineRuleKind::LinkPrefix(LinkPrefixScanner { prefix, enable_nested: ENABLE_NESTED }),
        ),
        final(md).core == old(md).core,
{
    let ghost o = md.inline.rules@;
    md.inline.add_rule(InlineRuleKind::LinkPrefix(LinkPrefixScanner { prefix, enable_nested: ENABLE_NESTED }));
    assert(md.inline.rules@.drop_last() =~= o);
    add_link_end(md);
}

fn add_link_end(md: &mut MarkdownIt)
    requires
        old(md).inline.rules@.len() > 0,
        !(old(md).inline.rules@.last() is LinkEnd),
    ensures
        final(md).core == old(md).core,
        ({
            let before = old(md).inline.rules@.drop_last();
            final(md).inline.rules@ == rules_with_link_rule(before, old(md).inline.rules@.last())
        }),
{
    let ghost before = md.inline.rules@.drop_last();
    let ghost added = md.inline.rules@.last();
    assert(md.inline.rules@ == before.push(added));
    let end = InlineRuleKind::LinkEnd(LinkScannerEnd);
    let present = md.inline.has_rule(&end);
    proof {
        if before.contains(end) {
            let i = choose|i: int| 0 <= i < before.len() && before[i] == end;
            assert(md.inline.rules@[i] == end);
        }
        if md.inline.rules@.contains(end) {
            let i = choose|i: int| 0 <= i < md.inline.rules@.len() && md.inline.rules@[i] == end;
            if i == before.len() {
                assert(md.inline.rules@[i] == added);
            } else {
                assert(before[i] == end);
            }
        }
    }
    if !present {
        md.inline.add_rule(end);
    }
}

impl InlineRule for LinkScanner {
    /// At a `[`, the link rule with no prefix (see [link_rule_post]);
    /// elsewhere no link and the state unchanged.
    fn run(&self, state: &mut InlineState) -> (r: Option<usize>)
        ensures
            old(state).src@[old(state).pos as int] != '[' ==> r is None && *final(state) == *old(state),
            old(state).src@[old(state).pos as int] == '[' ==> link_rule_post(
                *old(state),
                *final(state),
                r,
                '\0',
                0,
                self.enable_nested,
            ),
    {
        if state.src[state.pos] != '[' {
            return None;
        }
        rule(state, self.enable_nested, 0, '\0')
    }
}

impl InlineRule for LinkPrefixScanner {
    /// At the prefix followed by `[`, the link rule with that prefix (see
    /// [link_rule_post]); elsewhere no link and the state unchanged.
    fn run(&self, state: &mut InlineState) -> (r: Option<usize>)
        ensures
            !(old(state).src@[old(state).pos as int] == self.prefix && old(state).pos + 1 < old(state).pos_max
                && old(state).src@[old(state).pos + 1] == '[') ==> r is None && *final(state) == *old(state),
            (old(state).src@[old(state).pos as int] == self.prefix && old(state).pos + 1 < old(state).pos_max
                && old(state).src@[old(state).pos + 1] == '[') ==> link_rule_post(
                *old(state),
                *final(state),
                r,
                self.prefix,
                1,
                self.enable_nested,
            ),
    {
        if state.src[state.pos] != self.prefix {
            return None;
        }
        if !(state.pos + 1 < state.pos_max && state.src[state.pos + 1] == '[') {
            return None;
        }
        rule(state, self.enable_nested, 1, self.prefix)
    }
}

impl InlineRule for LinkScannerEnd {
    /// Never matches: it only marks `]` as the end of a label.
    fn run(&self, state: &mut InlineState) -> (r: Option<usize>)
        ensures
            r is None,
            *final(state) == *old(state),
    {
        None
    }
}

proof fn lemma_bare_run(s: Seq<char>, j: int, max: int)
    requires
        0 <= j <= max <= s.len(),
        forall|i: int|
            j <= i < max ==> #[trigger] s[i] > ' ' && s[i] != '\x7f' && s[i] != '(' && s[i] != ')' && s[i]
                != '\\',
    ensures
        bare_dest_end(s, j, max, 0) == Some(max),
    decreases max - j,
{
    if j < max {
        lemma_bare_run(s, j + 1, max);
    }
}

/// A bare destination (one not opening with `<`) that holds no space, no
/// ASCII control character, no backslash and no parenthesis takes the
/// whole scanned range: any other character, `?`, `=` or `#` among them,
/// belongs to it.
pub proof fn lemma_bare_destination_to_end(s: Seq<char>, start: int, max: int)
    requires
        0 <= start < max <= s.len(),
        s[start] != '<',
        forall|i: int|
            start <= i < max ==> #[trigger] s[i] > ' ' && s[i] != '\x7f' && s[i] != '(' && s[i] != ')' && s[i]
                != '\\',
    ensures
        link_destination_spec(s, start, max) == Some((max, start, max)),
{
    lemma_bare_run(s, start, max);
}

proof fn lemma_count_newlines_front(s: Seq<char>)
    requires
        s.len() > 0,
    ensures
        count_newlines(s) == count_newlines(s.subrange(1, s.len() as int)) + if s[0] == '\n' {
            1nat
        } else {
            0nat
        },
    decreases s.len(),
{
    if s.len() > 1 {
        lemma_count_newlines_front(s.drop_last());
        assert(s.drop_last().subrange(1, s.len() - 1) =~= s.subrange(1, s.len() as int).drop_last());
    } else {
        assert(s.drop_last() =~= Seq::<char>::empty());
        assert(s.subrange(1, s.len() as int) =~= Seq::<char>::empty());
    }
}

proof fn lemma_quoted_title_run(s: Seq<char>, i: int, k: int, max: int, m: char, lines: nat)
    requires
        0 <= i <= k < max <= s.len(),
        m == '"' || m == '\'',
        s[k] == m,
        forall|j: int| i <= j < k ==> #[trigger] s[j] != m && s[j] != '\\',
    ensures
        title_close(s, i, max, m, lines) == Some((k, lines + count_newlines(s.subrange(i, k)))),
    decreases k - i,
{
    if i < k {
        lemma_quoted_title_run(s, i + 1, k, max, m, lines + if s[i] == '\n' {
            1nat
        } else {
            0nat
        });
        lemma_count_newlines_front(s.subrange(i, k));
        assert(s.subrange(i, k).subrange(1, k - i) =~= s.subrange(i + 1, k));
    } else {
        assert(s.subrange(i, k) =~= Seq::<char>::empty());
    }
}

/// A title in double or single quotes closes at the first same quote when
/// no backslash comes before it: everything else, parentheses and
/// newlines included, is its content, and it holds as many line breaks as
/// newlines.
pub proof fn lemma_quoted_title(s: Seq<char>, start: int, k: int, max: int)
    requires
        0 <= start < k < max <= s.len(),
        s[start] == '"' || s[start] == '\'',
        s[k] == s[start],
        forall|j: int| start < j < k ==> #[trigger] s[j] != s[start] && s[j] != '\\',
    ensures
        link_title_spec(s, start, max) == Some((k + 1, start + 1, k, count_newlines(s.subrange(start + 1, k)))),
{
    lemma_quoted_title_run(s, start + 1, k, max, s[start], 0);
}

/// Skipping spaces stops at the first character, from `i` on, that is
/// neither a space, a tab nor a newline, or at `max`.
pub proof fn lemma_skip_spaces(s: Seq<char>, i: int, max: int)
    requires
        0 <= i <= max <= s.len(),
    ensures
        i <= skip_spaces(s, i, max) <= max,
        forall|j: int|
            i <= j < skip_spaces(s, i, max) ==> #[trigger] s[j] == ' ' || s[j] == '\t' || s[j] == '\n',
        skip_spaces(s, i, max) < max ==> !(s[skip_spaces(s, i, max)] == ' ' || s[skip_spaces(s, i, max)] == '\t'
            || s[skip_spaces(s, i, max)] == '\n'),
    decreases max - i,
{
    if i < max && (s[i] == ' ' || s[i] == '\t' || s[i] == '\n') {
        lemma_skip_spaces(s, i + 1, max);
    }
}

/// Inside the parentheses of an inline link a newline separates like a
/// space: writing a newline in place of a space (or the other way round)
/// changes nowhere where skipping stops.
pub proof fn lemma_skip_spaces_newline(s: Seq<char>, k: int, i: int, max: int)
    requires
        0 <= i <= max <= s.len(),
        0 <= k < s.len(),
    ensures
        skip_spaces(s.update(k, '\n'), i, max) == skip_spaces(s.update(k, ' '), i, max),
    decreases max - i,
{
    if i < max {
        lemma_skip_spaces_newline(s, k, i + 1, max);
    }
}

/// A full reference link `[text][label]` whose second label is not empty
/// takes the definition of that label and ends after it, whatever the
/// first label says: `e` is the end of the first label, and the second
/// label opens right after it and closes at `x`.
pub proof fn lemma_second_label_decides(cx: Cx, t: Ctl, pos: int, e: int)
    requires
        0 <= pos < e,
        e + 1 < t.max,
        cx.src[e + 1] == '[',
        label_ctl(cx, t, e + 1, false).1 matches Some(x) && e + 2 < x < t.max,
    ensures
        reference_ctl(cx, t, pos, e).1 == ({
            let x = label_ctl(cx, t, e + 1, false).1.unwrap();
            match cx.refs {
                Some(entries) => match find_reference(entries, normalize_label(cx.src.subrange(e + 2, x))) {
                    Some(d) => Some((e, Some(d.destination@), opt_view(d.title), x + 1)),
                    None => None,
                },
                None => None,
            }
        }),
{
}

/// The same for what is known of a reference link before its labels are
/// tokenized (see [plain_reference]): a non-empty second label whose end
/// is known names the definition and ends the link.
pub proof fn lemma_second_label_decides_known(st: InlineState, start: int, e: int)
    requires
        e + 1 < st.pos_max,
        st.src@[e + 1] == '[',
        known_label_end(st, e + 1, false) matches Some(Some(x)) && e + 2 < x < st.pos_max,
    ensures
        plain_reference(st, start, e) == ({
            let x = known_label_end(st, e + 1, false).unwrap().unwrap();
            Some((definition_of(st, st.src@.subrange(e + 2, x)), x + 1))
        }),
{
}

proof fn lemma_angle_run(s: Seq<char>, i: int, k: int, max: int)
    requires
        0 <= i <= k < max <= s.len(),
        s[k] == '>',
        forall|j: int| i <= j < k ==> #[trigger] s[j] != '\n' && s[j] != '<' && s[j] != '>' && s[j] != '\\',
    ensures
        angle_dest_close(s, i, max) == Some(k),
    decreases k - i,
{
    if i < k {
        lemma_angle_run(s, i + 1, k, max);
    }
}

/// A destination in angle brackets holding no newline, bracket or
/// backslash ends just after its `>`, its text being what lies between.
pub proof fn lemma_angle_destination(s: Seq<char>, start: int, k: int, max: int)
    requires
        0 <= start < k < max <= s.len(),
        s[start] == '<',
        s[k] == '>',
        forall|j: int| start < j < k ==> #[trigger] s[j] != '\n' && s[j] != '<' && s[j] != '>' && s[j] != '\\',
    ensures
        link_destination_spec(s, start, max) == Some((k + 1, start + 1, k)),
{
    lemma_angle_run(s, start + 1, k, max);
}

proof fn lemma_paren_title_run(s: Seq<char>, i: int, k: int, max: int, lines: nat)
    requires
        0 <= i <= k < max <= s.len(),
        s[k] == ')',
        forall|j: int| i <= j < k ==> #[trigger] s[j] != ')' && s[j] != '(' && s[j] != '\\',
    ensures
        title_close(s, i, max, ')', lines) == Some((k, lines + count_newlines(s.subrange(i, k)))),
    decreases k - i,
{
    if i < k {
        lemma_paren_title_run(s, i + 1, k, max, lines + if s[i] == '\n' {
            1nat
        } else {
            0nat
        });
        lemma_count_newlines_front(s.subrange(i, k));
        assert(s.subrange(i, k).subrange(1, k - i) =~= s.subrange(i + 1, k));
    } else {
        assert(s.subrange(i, k) =~= Seq::<char>::empty());
    }
}

/// A title in parentheses closes at its first `)` when it holds no `(`
/// and no backslash; a `(` before any `)` refuses it.
pub proof fn lemma_paren_title(s: Seq<char>, start: int, k: int, max: int)
    requires
        0 <= start < k < max <= s.len(),
        s[start] == '(',
        forall|j: int| start < j < k ==> #[trigger] s[j] != ')' && s[j] != '\\',
    ensures
        s[k] == ')' && (forall|j: int| start < j < k ==> #[trigger] s[j] != '(') ==> link_title_spec(s, start, max)
            == Some((k + 1, start + 1, k, count_newlines(s.subrange(start + 1, k)))),
        s[k] == '(' ==> link_title_spec(s, start, max) is None,
    decreases k - start,
{
    if s[k] == ')' && (forall|j: int| start < j < k ==> #[trigger] s[j] != '(') {
        lemma_paren_title_run(s, start + 1, k, max, 0);
    }
    if s[k] == '(' {
        lemma_paren_refused(s, start + 1, k, max, 0);
    }
}

proof fn lemma_paren_refused(s: Seq<char>, i: int, k: int, max: int, lines: nat)
    requires
        0 <= i <= k < max <= s.len(),
        s[k] == '(',
        forall|j: int| i <= j < k ==> #[trigger] s[j] != ')' && s[j] != '\\',
    ensures
        title_close(s, i, max, ')', lines) is None,
    decreases k - i,
{
    if i < k {
        lemma_paren_refused(s, i + 1, k, max, lines + if s[i] == '\n' {
            1nat
        } else {
            0nat
        });
    }
}

} // verus!
