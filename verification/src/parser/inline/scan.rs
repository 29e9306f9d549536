//! The inline tokenizer as a function of its control state: the position,
//! the limit, the label-scan and span caches and the last character of
//! pending text. Every step of tokenizing, and every label scan, is
//! determined by this state and the input; the executable rules are
//! proved to follow these definitions.
use vstd::prelude::*;
use crate::node::{Node, NodeValue};
use crate::parser::InlineRuleKind;
use crate::parser::inline::{BacktickCache, InlineState, map_range, trailing_text};
use crate::common::utils::byte_offset;
use crate::generics::inline::full_link::{inline_link_spec, opt_view};
use crate::parser::internals::syntax_base::generics::inline::code_pair::{next_marker, run_end, span_at, span_text};
use crate::references::{Reference, find_reference, normalize_label};

verus! {

/// What tokenizing reads and never changes: the input, the inline rules
/// and the reference definitions.
pub struct Cx {
    pub src: Seq<char>,
    pub rules: Seq<InlineRuleKind>,
    pub refs: Option<Seq<(String, Reference)>>,
    /// Document positions of byte offsets of the input.
    pub map: Seq<(usize, usize)>,
}

/// What tokenizing reads and changes: the position and the limit, the
/// cached label scans, the span caches (marker, whole scan failed, largest
/// position of a run of each length) and the last character of the text
/// just before the position, if text comes just before it.
pub struct Ctl {
    pub pos: int,
    pub max: int,
    pub labels: Map<usize, (usize, bool, bool)>,
    pub ticks: Seq<(char, bool, Seq<usize>)>,
    pub last: Option<char>,
}

/// The fixed part of an inline state.
pub open spec fn cx_of(st: InlineState) -> Cx {
    Cx {
        src: st.src@,
        rules: st.md.inline.rules@,
        refs: match st.references {
            Some(r) => Some(r.entries@),
            None => None,
        },
        map: st.srcmap@,
    }
}

/// The span caches as plain values.
pub open spec fn ticks_model(v: Seq<(char, BacktickCache)>) -> Seq<(char, bool, Seq<usize>)> {
    Seq::new(v.len(), |i: int| (v[i].0, v[i].1.scanned, v[i].1.max@))
}

/// The last character of the text at the end of `n`, if it ends with text.
pub open spec fn last_char(n: Node) -> Option<char> {
    if trailing_text(n).len() > 0 {
        Some(trailing_text(n).last())
    } else {
        None
    }
}

/// The control state of an inline state.
pub open spec fn ctl_of(st: InlineState) -> Ctl {
    Ctl {
        pos: st.pos as int,
        max: st.pos_max as int,
        labels: st.inline_env.link_labels@,
        ticks: ticks_model(st.inline_env.backticks@),
        last: last_char(st.node),
    }
}

/// Index of the first span cache for `m` at or after `i`.
pub open spec fn tick_index(t: Seq<(char, bool, Seq<usize>)>, m: char, i: int) -> Option<int>
    decreases t.len() - i,
{
    if i < 0 || i >= t.len() {
        None
    } else if t[i].0 == m {
        Some(i)
    } else {
        tick_index(t, m, i + 1)
    }
}

/// `max` after a run of `cl` markers at `ms` was seen: long enough to hold
/// an entry for `cl`, which is at least `ms`.
pub open spec fn raise(max: Seq<usize>, cl: int, ms: int) -> Seq<usize> {
    let ext = if max.len() <= cl {
        max + Seq::new((cl + 1 - max.len()) as nat, |k: int| 0usize)
    } else {
        max
    };
    if ext[cl] < ms {
        ext.update(cl, ms as usize)
    } else {
        ext
    }
}

/// Looking from `from` for a closing run of exactly `n` markers `m`: its
/// end, if any, with the span cache (`scanned`, `max`) updated by every
/// run of another length met before; a scan that meets no closing run
/// marks the cache as scanned.
pub open spec fn closers(s: Seq<char>, from: int, max: int, m: char, n: int, scanned: bool, mx: Seq<usize>) -> (
    Option<int>,
    bool,
    Seq<usize>,
)
    decreases max - from,
{
    match next_marker(s, from, max, m) {
        None => (None, true, mx),
        Some(j) => {
            let k = run_end(s, j, max, m);
            if k - j == n {
                (Some(k), scanned, mx)
            } else if from < k <= max && j < k {
                closers(s, k, max, m, n, scanned, raise(mx, k - j, j))
            } else {
                (None, scanned, mx)
            }
        },
    }
}

/// The span caches with the cache for `m` put back at index `i`, or added
/// at the end when there was none.
pub open spec fn put_back(t: Seq<(char, bool, Seq<usize>)>, i: Option<int>, m: char, scanned: bool, mx: Seq<usize>) -> Seq<
    (char, bool, Seq<usize>),
> {
    match i {
        Some(i) => t.update(i, (m, scanned, mx)),
        None => t.push((m, scanned, mx)),
    }
}

/// The span rule for marker `m` at the position: whether it finds a span,
/// and the state after it.
pub open spec fn code_pair_step(cx: Cx, t: Ctl, m: char) -> (bool, Ctl) {
    let s = cx.src;
    let p = t.pos;
    if !(0 <= p < t.max) || s[p] != m || t.last == Some(m) {
        (false, t)
    } else {
        let e0 = run_end(s, p, t.max, m);
        let n = e0 - p;
        let i = tick_index(t.ticks, m, 0);
        let (sc, mx) = match i {
            Some(i) => (t.ticks[i].1, t.ticks[i].2),
            None => (false, Seq::<usize>::empty()),
        };
        if sc && n < mx.len() && mx[n] <= p {
            (false, t)
        } else {
            let (r, sc2, mx2) = closers(s, e0, t.max, m, n, sc, mx);
            let t2 = Ctl { ticks: put_back(t.ticks, i, m, sc2, mx2), ..t };
            match r {
                Some(k) => (true, Ctl { pos: k, last: None, ..t2 }),
                None => (false, t2),
            }
        }
    }
}

/// What a cached label scan answers (see `label_answer`), as an integer.
pub open spec fn cached_answer(entry: (usize, bool, bool), enable_nested: bool) -> Option<int> {
    if entry.2 && (enable_nested || !entry.1) {
        Some(entry.0 - 1)
    } else {
        None
    }
}

/// The definition named by `src[a..b]`, as the result of a link whose
/// label ends at `le` and which ends at `end`.
pub open spec fn lookup(cx: Cx, a: int, b: int, le: int, end: int) -> Option<
    (int, Option<Seq<char>>, Option<Seq<char>>, int),
> {
    match cx.refs {
        Some(entries) => match find_reference(entries, normalize_label(cx.src.subrange(a, b))) {
            Some(d) => Some((le, Some(d.destination@), opt_view(d.title), end)),
            None => None,
        },
        None => None,
    }
}

/// Tokenizing from the position to the limit: the state at the end.
pub open spec fn tokenize_ctl(cx: Cx, t: Ctl) -> Ctl
    decreases t.max - t.pos, 12int, 0int,
{
    if !(0 <= t.pos < t.max) || t.max > cx.src.len() {
        t
    } else {
        let (t2, _) = rules_from(cx, t, 0);
        let t3 = Ctl { max: t.max, ..t2 };
        if t.pos < t3.pos <= t.max {
            tokenize_ctl(cx, t3)
        } else {
            t3
        }
    }
}

/// One step of tokenizing: the rules from the `i`-th on are tried in
/// order at the position until one matches (`true`); when none does, the
/// character there becomes text (`false`). A rule that fails may still
/// have filled caches.
#[verifier::opaque]
pub open spec fn rules_from(cx: Cx, t: Ctl, i: int) -> (Ctl, bool)
    decreases t.max - t.pos, 10int, cx.rules.len() - i,
{
    if !(0 <= t.pos < t.max) || t.max > cx.src.len() {
        (t, false)
    } else if i < 0 || i >= cx.rules.len() {
        (Ctl { pos: t.pos + 1, last: Some(cx.src[t.pos]), ..t }, false)
    } else {
        let ch = cx.src[t.pos];
        match cx.rules[i] {
            InlineRuleKind::Link(sc) => if ch == '[' {
                let (t2, r) = link_ctl(cx, t, sc.enable_nested, 0);
                match r {
                    Some(len) => (Ctl { pos: t2.pos + len, last: None, ..t2 }, true),
                    None => rules_from(cx, Ctl { pos: t.pos, max: t.max, last: t.last, ..t2 }, i + 1),
                }
            } else {
                rules_from(cx, t, i + 1)
            },
            InlineRuleKind::LinkPrefix(sc) => if ch == sc.prefix && t.pos + 1 < t.max && cx.src[t.pos + 1]
                == '[' {
                let (t2, r) = link_ctl(cx, t, sc.enable_nested, 1);
                match r {
                    Some(len) => (Ctl { pos: t2.pos + len, last: None, ..t2 }, true),
                    None => rules_from(cx, Ctl { pos: t.pos, max: t.max, last: t.last, ..t2 }, i + 1),
                }
            } else {
                rules_from(cx, t, i + 1)
            },
            InlineRuleKind::LinkEnd(_) => rules_from(cx, t, i + 1),
            InlineRuleKind::CodePair(m) => {
                let (r, t2) = code_pair_step(cx, t, m);
                if r {
                    (t2, true)
                } else {
                    rules_from(cx, Ctl { ticks: t2.ticks, ..t }, i + 1)
                }
            },
        }
    }
}

/// The link rule with its label `offset` characters after the position:
/// the state after it and, when it finds a link, by how much the position
/// moves on from the returned position. On success the label is tokenized
/// and the returned position is where that stopped.
pub open spec fn link_ctl(cx: Cx, t: Ctl, enable_nested: bool, offset: int) -> (Ctl, Option<int>)
    decreases t.max - t.pos, 6int, 0int,
{
    let p = t.pos + offset;
    if !(0 <= t.pos && 0 <= offset && p < t.max) {
        (t, None)
    } else {
        let (t1, res) = parse_link_ctl(cx, t, p, enable_nested);
        match res {
            None => (Ctl { pos: t.pos, max: t.max, last: t.last, ..t1 }, None),
            Some((le, _, _, end)) => {
                let ls = p + 1;
                if ls <= le <= t.max {
                    let t3 = tokenize_ctl(cx, Ctl { pos: ls, max: le, last: None, ..t1 });
                    (Ctl { pos: le, max: t.max, last: None, ..t3 }, Some(end - le))
                } else {
                    (Ctl { pos: ls, max: t.max, last: None, ..t1 }, Some(end - ls))
                }
            },
        }
    }
}

/// Parsing a link whose label opens at `pos`: the state after it and the
/// label end, destination, title and end of the link found, if any.
pub open spec fn parse_link_ctl(cx: Cx, t: Ctl, pos: int, enable_nested: bool) -> (
    Ctl,
    Option<(int, Option<Seq<char>>, Option<Seq<char>>, int)>,
)
    decreases t.max - pos, 4int, 0int,
{
    if !(0 <= pos < t.max) {
        (t, None)
    } else {
        let (t1, lab) = label_ctl(cx, t, pos, enable_nested);
        let t1 = Ctl { max: t.max, ..t1 };
        match lab {
            None => (t1, None),
            Some(e) => if e < 0 || e >= t.max {
                (t1, None)
            } else {
                match inline_link_spec(cx.src, e, t.max) {
                    Some((h, ti, end)) => (t1, Some((e, h, ti, end))),
                    None => reference_ctl(cx, t1, pos, e),
                }
            },
        }
    }
}

/// A link with label `pos..=e` and no inline part, resolved through the
/// definitions: by a second label when one follows and is not empty, by
/// its own label otherwise.
pub open spec fn reference_ctl(cx: Cx, t: Ctl, pos: int, e: int) -> (
    Ctl,
    Option<(int, Option<Seq<char>>, Option<Seq<char>>, int)>,
)
    decreases t.max - pos, 3int, 0int,
{
    let p = e + 1;
    if !(0 <= pos < e < t.max) {
        (t, None)
    } else if p < t.max && cx.src[p] == '[' {
        let (t2, x) = label_ctl(cx, t, p, false);
        match x {
            Some(x) => if x <= p || x >= t.max {
                (t2, None)
            } else if p + 1 < x {
                (t2, lookup(cx, p + 1, x, e, x + 1))
            } else {
                (t2, lookup(cx, pos + 1, e, e, x + 1))
            },
            None => (t2, lookup(cx, pos + 1, e, e, e + 1)),
        }
    } else {
        (t, lookup(cx, pos + 1, e, e, e + 1))
    }
}

/// Scanning the label opening at `start`: the state after it (the scan is
/// cached) and the label end, if the label closes and is not refused for
/// holding a link while nesting is off. A label scanned before answers
/// from the cache.
pub open spec fn label_ctl(cx: Cx, t: Ctl, start: int, enable_nested: bool) -> (Ctl, Option<int>)
    decreases t.max - start, 2int, 0int,
{
    if !(0 <= start < t.max) {
        (t, None)
    } else if t.labels.contains_key(start as usize) {
        (t, cached_answer(t.labels[start as usize], enable_nested))
    } else {
        let (t2, found, nested) = label_loop(cx, Ctl { pos: start + 1, last: None, ..t }, start, false);
        let entry = if found {
            ((t2.pos + 1) as usize, nested, true)
        } else {
            (t.max as usize, nested, false)
        };
        (
            Ctl { pos: t.pos, max: t.max, last: t.last, labels: t2.labels.insert(start as usize, entry), ticks: t2.ticks },
            if found && (!nested || enable_nested) {
                Some(t2.pos)
            } else {
                None
            },
        )
    }
}

/// The loop of a label scan from the position: each character other than
/// `]` is tokenized with nothing pending before it; a `[` that gives a
/// token is a nested link; after text the scan jumps past a label cached
/// at that character. Gives the state where the scan stopped, whether it
/// stopped at a `]`, and whether a nested link was met.
pub open spec fn label_loop(cx: Cx, t: Ctl, start: int, nested: bool) -> (Ctl, bool, bool)
    decreases t.max - start, 1int, t.max - t.pos,
{
    if !(start < t.pos) || t.pos >= t.max || t.max > cx.src.len() {
        (t, false, nested)
    } else if cx.src[t.pos] == ']' {
        (t, true, nested)
    } else {
        let p = t.pos;
        let ch = cx.src[p];
        let (t2, b) = rules_from(cx, Ctl { last: None, ..t }, 0);
        let (t3, n2) = if b {
            (t2, nested || ch == '[')
        } else if t2.labels.contains_key(p as usize) {
            (Ctl { pos: t2.labels[p as usize].0 as int, ..t2 }, nested || t2.labels[p as usize].1)
        } else {
            (t2, nested)
        };
        let t4 = Ctl { max: t.max, last: None, ..t3 };
        if p < t4.pos <= t.max {
            label_loop(cx, t4, start, n2)
        } else {
            (t4, false, n2)
        }
    }
}

/// Looking up the span cache of a marker gives the same index in the
/// caches and in their plain values.
pub proof fn lemma_tick_index(v: Seq<(char, BacktickCache)>, m: char, i: int)
    ensures
        crate::parser::internals::syntax_base::generics::inline::code_pair::first_cache_index(v, m, i)
            == tick_index(ticks_model(v), m, i),
    decreases v.len() - i,
{
    if 0 <= i < v.len() && v[i].0 != m {
        lemma_tick_index(v, m, i + 1);
    }
}

/// A node of the syntax tree as a plain value: what tokenizing produces.
pub enum Tok {
    Text { content: Seq<char>, srcmap: Option<(usize, usize)> },
    Link {
        prefix: char,
        url: Option<Seq<char>>,
        title: Option<Seq<char>>,
        srcmap: Option<(usize, usize)>,
        children: Seq<Tok>,
    },
    Span {
        marker: char,
        length: usize,
        srcmap: Option<(usize, usize)>,
        text: Seq<char>,
        text_srcmap: Option<(usize, usize)>,
    },
    Other,
}

/// Document position of the characters `a..b` of the input.
pub open spec fn src_range(cx: Cx, a: int, b: int) -> Option<(usize, usize)> {
    map_range(cx.map, byte_offset(cx.src, a) as int, byte_offset(cx.src, b) as int)
}

/// The node `n` as a plain value; a span node is one only with a single
/// text child without children.
pub open spec fn node_tok(n: Node) -> Tok
    decreases n,
{
    match n.value {
        NodeValue::Text { content } => Tok::Text { content: content@, srcmap: n.srcmap },
        NodeValue::Link { prefix, url, title } => Tok::Link {
            prefix,
            url: opt_view(url),
            title: opt_view(title),
            srcmap: n.srcmap,
            children: nodes_toks(n.children@),
        },
        NodeValue::CodeSpan { marker, length } => if n.children@.len() == 1 && n.children@[0].children@.len()
            == 0 {
            match n.children@[0].value {
                NodeValue::Text { content } => Tok::Span {
                    marker,
                    length,
                    srcmap: n.srcmap,
                    text: content@,
                    text_srcmap: n.children@[0].srcmap,
                },
                _ => Tok::Other,
            }
        } else {
            Tok::Other
        },
        _ => Tok::Other,
    }
}

/// The nodes of `s` as plain values.
pub open spec fn nodes_toks(s: Seq<Node>) -> Seq<Tok>
    decreases s,
{
    if s.len() == 0 {
        Seq::empty()
    } else {
        seq![node_tok(s[0])] + nodes_toks(s.subrange(1, s.len() as int))
    }
}

/// The plain values of a sequence of nodes are those of its nodes, in order.
pub proof fn lemma_nodes_toks(s: Seq<Node>)
    ensures
        nodes_toks(s).len() == s.len(),
        forall|i: int| 0 <= i < s.len() ==> #[trigger] nodes_toks(s)[i] == node_tok(s[i]),
    decreases s.len(),
{
    if s.len() > 0 {
        lemma_nodes_toks(s.subrange(1, s.len() as int));
        assert forall|i: int| 0 <= i < s.len() implies #[trigger] nodes_toks(s)[i] == node_tok(s[i]) by {
            if i > 0 {
                assert(s.subrange(1, s.len() as int)[i - 1] == s[i]);
            }
        }
    }
}

/// Appending a node, and replacing the last node, act on the plain values.
pub proof fn lemma_nodes_toks_push(s: Seq<Node>, n: Node)
    ensures
        nodes_toks(s.push(n)) == nodes_toks(s).push(node_tok(n)),
        s.len() > 0 ==> nodes_toks(s.drop_last().push(n)) == nodes_toks(s).drop_last().push(node_tok(n)),
{
    lemma_nodes_toks(s);
    lemma_nodes_toks(s.push(n));
    assert(nodes_toks(s.push(n)) =~= nodes_toks(s).push(node_tok(n)));
    if s.len() > 0 {
        lemma_nodes_toks(s.drop_last());
        lemma_nodes_toks(s.drop_last().push(n));
        assert(nodes_toks(s.drop_last().push(n)) =~= nodes_toks(s).drop_last().push(node_tok(n)));
    }
}

/// The nodes `acc` with the character at `p` added as text: appended to
/// a last text node (its document position then reaches past `p`), or as
/// a new text node.
pub open spec fn push_text(cx: Cx, acc: Seq<Tok>, p: int) -> Seq<Tok> {
    let c = cx.src[p];
    let m = src_range(cx, p, p + 1);
    if acc.len() > 0 && acc.last() is Text {
        let content = acc.last()->Text_content;
        let srcmap = acc.last()->Text_srcmap;
        acc.drop_last().push(
            Tok::Text {
                content: content.push(c),
                srcmap: match (srcmap, m) {
                    (Some((a, _)), Some((_, b))) => Some((a, b)),
                    _ => None,
                },
            },
        )
    } else {
        acc.push(Tok::Text { content: seq![c], srcmap: m })
    }
}

/// The nodes `acc` after one step of tokenizing (see [rules_from]).
pub open spec fn step_toks(cx: Cx, t: Ctl, acc: Seq<Tok>) -> Seq<Tok> {
    if rules_from(cx, t, 0).1 {
        acc.push(rules_tok(cx, t, 0))
    } else {
        push_text(cx, acc, t.pos)
    }
}

/// The nodes after tokenizing from the position to the limit, the nodes
/// before being `acc`.
pub open spec fn tokens(cx: Cx, t: Ctl, acc: Seq<Tok>) -> Seq<Tok>
    decreases t.max - t.pos, 12int, 0int,
{
    if !(0 <= t.pos < t.max) || t.max > cx.src.len() {
        acc
    } else {
        let (t2, _) = rules_from(cx, t, 0);
        let acc2 = if rules_from(cx, t, 0).1 {
            acc.push(rules_tok(cx, t, 0))
        } else {
            push_text(cx, acc, t.pos)
        };
        let t3 = Ctl { max: t.max, ..t2 };
        if t.pos < t3.pos <= t.max {
            tokens(cx, t3, acc2)
        } else {
            acc2
        }
    }
}

/// The node that the first matching rule from the `i`-th on produces at
/// the position (see [rules_from]).
#[verifier::opaque]
pub open spec fn rules_tok(cx: Cx, t: Ctl, i: int) -> Tok
    decreases t.max - t.pos, 10int, cx.rules.len() - i,
{
    if !(0 <= t.pos < t.max) || t.max > cx.src.len() || i < 0 || i >= cx.rules.len() {
        Tok::Other
    } else {
        let ch = cx.src[t.pos];
        match cx.rules[i] {
            InlineRuleKind::Link(sc) => if ch == '[' {
                let (t2, r) = link_ctl(cx, t, sc.enable_nested, 0);
                match r {
                    Some(_) => link_tok(cx, t, sc.enable_nested, 0, '\0'),
                    None => rules_tok(cx, Ctl { pos: t.pos, max: t.max, last: t.last, ..t2 }, i + 1),
                }
            } else {
                rules_tok(cx, t, i + 1)
            },
            InlineRuleKind::LinkPrefix(sc) => if ch == sc.prefix && t.pos + 1 < t.max && cx.src[t.pos + 1]
                == '[' {
                let (t2, r) = link_ctl(cx, t, sc.enable_nested, 1);
                match r {
                    Some(_) => link_tok(cx, t, sc.enable_nested, 1, sc.prefix),
                    None => rules_tok(cx, Ctl { pos: t.pos, max: t.max, last: t.last, ..t2 }, i + 1),
                }
            } else {
                rules_tok(cx, t, i + 1)
            },
            InlineRuleKind::LinkEnd(_) => rules_tok(cx, t, i + 1),
            InlineRuleKind::CodePair(m) => {
                let (r, t2) = code_pair_step(cx, t, m);
                if r {
                    span_tok(cx, t, m)
                } else {
                    rules_tok(cx, Ctl { ticks: t2.ticks, ..t }, i + 1)
                }
            },
        }
    }
}

/// The span node for marker `m` at the position (see [span_at]).
pub open spec fn span_tok(cx: Cx, t: Ctl, m: char) -> Tok {
    match span_at(cx.src, t.pos, t.max, m) {
        Some((n, me, ts, te)) => Tok::Span {
            marker: m,
            length: n as usize,
            srcmap: src_range(cx, t.pos, me),
            text: span_text(cx.src.subrange(t.pos + n, me - n)),
            text_srcmap: src_range(cx, ts, te),
        },
        None => Tok::Other,
    }
}

/// The link node that the link rule (see [link_ctl]) produces: its prefix,
/// destination and title, its document position from the position to the
/// end of the link, and as children the nodes of its label.
pub open spec fn link_tok(cx: Cx, t: Ctl, enable_nested: bool, offset: int, prefix: char) -> Tok
    decreases t.max - t.pos, 6int, 0int,
{
    let p = t.pos + offset;
    if !(0 <= t.pos && 0 <= offset && p < t.max) {
        Tok::Other
    } else {
        let (t1, res) = parse_link_ctl(cx, t, p, enable_nested);
        match res {
            None => Tok::Other,
            Some((le, h, ti, end)) => Tok::Link {
                prefix,
                url: h,
                title: ti,
                srcmap: src_range(cx, t.pos, end),
                children: if p + 1 <= le <= t.max {
                    tokens(cx, Ctl { pos: p + 1, max: le, last: None, ..t1 }, Seq::empty())
                } else {
                    Seq::empty()
                },
            },
        }
    }
}

/// The nodes that inline content `content` is tokenized into from scratch,
/// with the given rules, definitions and document mapping.
pub open spec fn inline_tokens(
    rules: Seq<InlineRuleKind>,
    refs: Option<Seq<(String, Reference)>>,
    content: Seq<char>,
    mapping: Seq<(usize, usize)>,
) -> Seq<Tok> {
    tokens(
        Cx { src: content, rules, refs, map: mapping },
        Ctl { pos: 0, max: content.len() as int, labels: Map::empty(), ticks: Seq::empty(), last: None },
        Seq::empty(),
    )
}

/// Tokenizing one step from `o` comes to trying the rules from the `i`-th
/// on at `t`.
#[verifier::opaque]
pub open spec fn same_step(cx: Cx, o: Ctl, t: Ctl, i: int) -> bool {
    rules_from(cx, o, 0) == rules_from(cx, t, i) && rules_tok(cx, o, 0) == rules_tok(cx, t, i)
}

} // verus!
