//! Spans between runs of a marker character, as code spans are between
//! runs of backticks: the opening run is closed by the next run of exactly
//! the same length.
use vstd::prelude::*;
use crate::node::{Node, NodeValue, children_are_parsed, lemma_node_is_parsed, node_is_parsed};
use crate::parser::{InlineRuleKind, MarkdownIt};
use crate::parser::inline::{BacktickCache, InlineState, all_unscanned, same_frame, source_range, trailing_text};
use crate::common::utils::string_of_range;
use crate::parser::inline::scan::{closers, code_pair_step, ctl_of, cx_of, lemma_tick_index, put_back, raise, tick_index, ticks_model};

verus! {

/// Registers the span rule for `marker`; the span becomes a
/// [NodeValue::CodeSpan] node with the marker and the length of its runs.
pub fn add_with(md: &mut MarkdownIt, marker: char)
    ensures
        final(md).inline.rules@ == old(md).inline.rules@.push(InlineRuleKind::CodePair(marker)),
        final(md).core == old(md).core,
{
    md.inline.add_rule(InlineRuleKind::CodePair(marker));
}

/// End of the run of `m` that starts at `i`.
pub open spec fn run_end(s: Seq<char>, i: int, max: int, m: char) -> int
    decreases max - i,
{
    if i < max && s[i] == m {
        run_end(s, i + 1, max, m)
    } else {
        i
    }
}

/// First position at or after `i` holding `m`.
pub open spec fn next_marker(s: Seq<char>, i: int, max: int, m: char) -> Option<int>
    decreases max - i,
{
    if i >= max {
        None
    } else if s[i] == m {
        Some(i)
    } else {
        next_marker(s, i + 1, max, m)
    }
}

/// The first run of exactly `n` markers found from `i`: its start and end.
pub open spec fn closing_run(s: Seq<char>, i: int, max: int, m: char, n: int) -> Option<(int, int)>
    decreases max - i,
{
    match next_marker(s, i, max, m) {
        None => None,
        Some(j) => {
            let k = run_end(s, j, max, m);
            if k - j == n {
                Some((j, k))
            } else if k <= i || k > max {
                None
            } else {
                closing_run(s, k, max, m, n)
            }
        },
    }
}

/// Newlines in span content read as spaces.
pub open spec fn newlines_to_spaces(s: Seq<char>) -> Seq<char> {
    s.map_values(|c: char| if c == '\n' { ' ' } else { c })
}

/// Whether span content `c` loses one leading and one trailing space: it
/// starts and ends with a space and is longer than two characters.
pub open spec fn strip_one_space(c: Seq<char>) -> bool {
    c.len() > 2 && c[0] == ' ' && c.last() == ' '
}

/// Text of a span whose content is `s`.
pub open spec fn span_text(s: Seq<char>) -> Seq<char> {
    let c = newlines_to_spaces(s);
    if strip_one_space(c) {
        c.subrange(1, c.len() - 1)
    } else {
        c
    }
}

/// The span that opens at `pos` (whose run has `n` markers): the end of its
/// closing run, and the range of its text.
pub open spec fn span_at(s: Seq<char>, pos: int, max: int, m: char) -> Option<(int, int, int, int)> {
    let n = run_end(s, pos, max, m) - pos;
    match closing_run(s, pos + n, max, m, n) {
        Some((ms, me)) => {
            let c = newlines_to_spaces(s.subrange(pos + n, ms));
            if strip_one_space(c) {
                Some((n, me, pos + n + 1, ms - 1))
            } else {
                Some((n, me, pos + n, ms))
            }
        },
        None => None,
    }
}

/// The cache says that no run of `n` markers closes a span after `pos`.
pub open spec fn cache_rules_out(c: BacktickCache, n: int, pos: int) -> bool {
    c.scanned && 0 <= n < c.max@.len() && c.max@[n] <= pos
}

/// Index of the first cache kept for `m` at or after `i`.
pub open spec fn first_cache_index(v: Seq<(char, BacktickCache)>, m: char, i: int) -> Option<int>
    decreases v.len() - i,
{
    if i < 0 || i >= v.len() {
        None
    } else if v[i].0 == m {
        Some(i)
    } else {
        first_cache_index(v, m, i + 1)
    }
}

/// Whether the cache of `m` in the state rules out a span of runs of `n`
/// markers opening at `pos`.
pub open spec fn cached_rule_out(st: InlineState, m: char, n: int, pos: int) -> bool {
    let v = st.inline_env.backticks@;
    match first_cache_index(v, m, 0) {
        Some(i) => cache_rules_out(v[i].1, n, pos),
        None => false,
    }
}

/// The node produced for a span with runs of `n` markers ending at `me`,
/// whose text is `text` at `ts..te`.
pub open spec fn is_span_node(
    node: Node,
    st: InlineState,
    m: char,
    n: int,
    me: int,
    ts: int,
    te: int,
) -> bool {
    &&& node.value == (NodeValue::CodeSpan { marker: m, length: n as usize })
    &&& node.srcmap == source_range(st, st.pos as int, me)
    &&& node.children@.len() == 1
    &&& node.children@[0].srcmap == source_range(st, ts, te)
    &&& node.children@[0].children@.len() == 0
    &&& node.children@[0].value matches NodeValue::Text { content } && content@ == span_text(
        st.src@.subrange(st.pos + n, me - n),
    )
}

proof fn lemma_run_end_bounds(s: Seq<char>, i: int, max: int, m: char)
    requires
        i <= max,
    ensures
        i <= run_end(s, i, max, m) <= max,
    decreases max - i,
{
    if i < max && s[i] == m {
        lemma_run_end_bounds(s, i + 1, max, m);
    }
}

proof fn lemma_closing_run_bounds(s: Seq<char>, i: int, max: int, m: char, n: int)
    requires
        0 <= i <= max,
    ensures
        closing_run(s, i, max, m, n) matches Some((a, b)) ==> i <= a <= b <= max && b - a == n,
    decreases max - i,
{
    lemma_next_marker_bounds(s, i, max, m);
    match next_marker(s, i, max, m) {
        None => {},
        Some(j) => {
            lemma_run_end_bounds(s, j, max, m);
            let k = run_end(s, j, max, m);
            if k - j != n && k > i {
                lemma_closing_run_bounds(s, k, max, m, n);
            }
        },
    }
}

proof fn lemma_next_marker_bounds(s: Seq<char>, i: int, max: int, m: char)
    ensures
        next_marker(s, i, max, m) matches Some(j) ==> i <= j < max && s[j] == m,
    decreases max - i,
{
    if i < max && s[i] != m {
        lemma_next_marker_bounds(s, i + 1, max, m);
    }
}

proof fn lemma_first_cache_index(v: Seq<(char, BacktickCache)>, m: char, i: int)
    requires
        0 <= i,
    ensures
        first_cache_index(v, m, i) matches Some(j) ==> i <= j < v.len() && v[j].0 == m,
    decreases v.len() - i,
{
    if i < v.len() && v[i].0 != m {
        lemma_first_cache_index(v, m, i + 1);
    }
}

/// A span closes with a run of exactly as many markers as open it: the
/// opening run is `pos..pos + n`, the closing run is `me - n..me`, both
/// consist of markers, cannot be extended, and the text lies between them.
pub proof fn lemma_span_runs_match(s: Seq<char>, pos: int, max: int, m: char)
    requires
        0 <= pos < max <= s.len(),
        s[pos] == m,
    ensures
        span_at(s, pos, max, m) matches Some((n, me, ts, te)) ==> {
            &&& n >= 1
            &&& pos + n <= me - n
            &&& me <= max
            &&& forall|i: int| pos <= i < pos + n ==> s[i] == m
            &&& forall|i: int| me - n <= i < me ==> s[i] == m
            &&& (pos + n == max || s[pos + n] != m)
            &&& (me == max || s[me] != m)
            &&& s[me - n - 1] != m
            &&& pos + n <= ts <= te <= me - n
        },
{
    lemma_run_facts(s, pos, max, m);
    let n = run_end(s, pos, max, m) - pos;
    lemma_closing_run_facts(s, pos + n, max, m, n);
}

proof fn lemma_run_facts(s: Seq<char>, i: int, max: int, m: char)
    requires
        0 <= i <= max <= s.len(),
    ensures
        i <= run_end(s, i, max, m) <= max,
        forall|j: int| i <= j < run_end(s, i, max, m) ==> s[j] == m,
        run_end(s, i, max, m) == max || s[run_end(s, i, max, m)] != m,
    decreases max - i,
{
    if i < max && s[i] == m {
        lemma_run_facts(s, i + 1, max, m);
    }
}

proof fn lemma_next_marker_facts(s: Seq<char>, i: int, max: int, m: char)
    requires
        0 <= i <= max <= s.len(),
    ensures
        next_marker(s, i, max, m) matches Some(j) ==> i <= j < max && s[j] == m && forall|x: int|
            i <= x < j ==> s[x] != m,
    decreases max - i,
{
    if i < max && s[i] != m {
        lemma_next_marker_facts(s, i + 1, max, m);
    }
}

/// Facts about a closing run searched for from `i`, where `i` is the end of
/// a maximal run (or the character before `i` is not a marker).
proof fn lemma_closing_run_facts(s: Seq<char>, i: int, max: int, m: char, n: int)
    requires
        0 < i <= max <= s.len(),
        n >= 1,
    ensures
        closing_run(s, i, max, m, n) matches Some((a, b)) ==> {
            &&& i <= a <= b <= max
            &&& b - a == n
            &&& forall|x: int| a <= x < b ==> s[x] == m
            &&& (b == max || s[b] != m)
            &&& (a == i || s[a - 1] != m)
        },
    decreases max - i,
{
    lemma_next_marker_facts(s, i, max, m);
    match next_marker(s, i, max, m) {
        None => {},
        Some(j) => {
            lemma_run_facts(s, j, max, m);
            let k = run_end(s, j, max, m);
            if k - j != n && k > i && k <= max {
                lemma_closing_run_facts(s, k, max, m, n);
            }
        },
    }
}

/// No cache rules a span out while no whole scan has failed.
pub proof fn lemma_unscanned_rules_nothing_out(st: InlineState, m: char, n: int, pos: int)
    requires
        all_unscanned(st.inline_env.backticks@),
    ensures
        !cached_rule_out(st, m, n, pos),
{
    lemma_first_cache_index(st.inline_env.backticks@, m, 0);
    match first_cache_index(st.inline_env.backticks@, m, 0) {
        Some(i) => {
            assert(!st.inline_env.backticks@[i].1.scanned);
        },
        None => {},
    }
}

fn find_cache(v: &Vec<(char, BacktickCache)>, m: char) -> (r: Option<usize>)
    ensures
        match r {
            Some(i) => first_cache_index(v@, m, 0) == Some(i as int) && i < v@.len() && v@[i as int].0 == m,
            None => first_cache_index(v@, m, 0) is None,
        },
{
    proof {
        lemma_first_cache_index(v@, m, 0);
    }
    let mut i: usize = 0;
    while i < v.len()
        invariant
            i <= v@.len(),
            first_cache_index(v@, m, 0) == first_cache_index(v@, m, i as int),
        decreases v@.len() - i,
    {
        if v[i].0 == m {
            return Some(i);
        }
        i = i + 1;
    }
    None
}

/// Parses a span opening at the current position: a run of `marker`
/// closed by the next run of exactly the same length. On success the
/// position moves past the closing run and, unless `silent`, a
/// [NodeValue::CodeSpan] node holding the text between the runs is added
/// to the current node. The rule does not start a span right after text
/// that ends with `marker`, nor when the cache of the rule shows that no
/// closing run of that length follows.
pub fn rule(state: &mut InlineState, marker: char, silent: bool) -> (r: bool)
    requires
        old(state).wf(),
        old(state).pos < old(state).pos_max,
    ensures
        old(state).src@[old(state).pos as int] != marker ==> !r && *final(state) == *old(state),
        r && all_unscanned(old(state).inline_env.backticks@) ==> all_unscanned(final(state).inline_env.backticks@),
        final(state).wf(),
        same_frame(*final(state), *old(state)),
        final(state).pos_max == old(state).pos_max,
        final(state).link_level == old(state).link_level,
        final(state).inline_env.link_labels == old(state).inline_env.link_labels,
        !r ==> final(state).pos == old(state).pos && final(state).node == old(state).node,
        r ==> old(state).pos < final(state).pos <= final(state).pos_max,
        r ==> old(state).src@[old(state).pos as int] == marker && !(trailing_text(old(state).node).len() > 0
            && trailing_text(old(state).node).last() == marker),
        r ==> match span_at(old(state).src@, old(state).pos as int, old(state).pos_max as int, marker) {
            Some((n, me, ts, te)) => {
                &&& final(state).pos == me
                &&& silent ==> final(state).node == old(state).node
                &&& !silent ==> final(state).node.value == old(state).node.value
                    && final(state).node.children@.len() == old(state).node.children@.len() + 1
                    && final(state).node.children@.take(old(state).node.children@.len() as int) == old(state).node.children@
                    && is_span_node(final(state).node.children@.last(), *old(state), marker, n, me, ts, te)
            },
            None => false,
        },
        (!r && old(state).src@[old(state).pos as int] == marker && !(trailing_text(old(state).node).len() > 0
            && trailing_text(old(state).node).last() == marker) && !cached_rule_out(
            *old(state),
            marker,
            run_end(old(state).src@, old(state).pos as int, old(state).pos_max as int, marker) - old(state).pos,
            old(state).pos as int,
        )) ==> span_at(old(state).src@, old(state).pos as int, old(state).pos_max as int, marker) is None,
        cached_rule_out(
            *old(state),
            marker,
            run_end(old(state).src@, old(state).pos as int, old(state).pos_max as int, marker) - old(state).pos,
            old(state).pos as int,
        ) ==> !r,
        !silent ==> (r, ctl_of(*final(state))) == code_pair_step(cx_of(*old(state)), ctl_of(*old(state)), marker),
{
    let ghost s = state.src@;
    let start = state.pos;
    let max = state.pos_max;
    if state.src[start] != marker {
        return false;
    }
    if state.trailing_text_ends_with(marker) {
        return false;
    }
    let mut pos = start + 1;
    while pos < max && state.src[pos] == marker
        invariant
            start < pos <= max <= s.len(),
            s == state.src@,
            max == state.pos_max,
            run_end(s, start as int, max as int, marker) == run_end(s, pos as int, max as int, marker),
        decreases max - pos,
    {
        pos = pos + 1;
    }
    let opener_len = pos - start;
    assert(run_end(s, pos as int, max as int, marker) == pos);
    assert(run_end(s, start as int, max as int, marker) == pos);
    let idx = find_cache(&state.inline_env.backticks, marker);
    let ghost v0 = state.inline_env.backticks@;
    proof {
        lemma_tick_index(v0, marker, 0);
    }
    let ghost t0 = ctl_of(*old(state));
    let ghost sc0: bool = match idx { Some(i) => v0[i as int].1.scanned, None => false };
    let ghost mx0: Seq<usize> = match idx { Some(i) => v0[i as int].1.max@, None => Seq::<usize>::empty() };
    assert(v0 == old(state).inline_env.backticks@);
    let mut cache = match idx {
        Some(i) => state.inline_env.backticks.remove(i).1,
        None => BacktickCache { scanned: false, max: Vec::new() },
    };
    let ghost mid = state.inline_env.backticks@;
    assert(idx matches Some(i) ==> mid =~= v0.remove(i as int));
    assert(idx is None ==> mid =~= v0);
    proof {
        if all_unscanned(v0) {
            match idx {
                Some(i) => {
                    assert(mid =~= v0.remove(i as int));
                    assert forall|j: int| 0 <= j < mid.len() implies !(#[trigger] mid[j]).1.scanned by {
                        if j < i {
                            assert(mid[j] == v0[j]);
                        } else {
                            assert(mid[j] == v0[j + 1]);
                        }
                    }
                    assert(v0[i as int].1 == cache);
                },
                None => {},
            }
        }
    }
    assert(idx matches Some(i) ==> cache == v0[i as int].1);
    assert(idx is None ==> !cache.scanned);
    if cache.scanned && opener_len < cache.max.len() && cache.max[opener_len] <= start {
        proof {
            let i = idx.unwrap() as int;
            assert(first_cache_index(v0, marker, 0) == Some(i));
            assert(cache_rules_out(v0[i].1, opener_len as int, start as int));
            assert(cached_rule_out(*old(state), marker, opener_len as int, start as int));
        }
        match idx {
            Some(i) => state.inline_env.backticks.insert(i, (marker, cache)),
            None => state.inline_env.backticks.push((marker, cache)),
        }
        proof {
            let i = idx.unwrap() as int;
            assert(state.inline_env.backticks@ =~= v0);
        }
        return false;
    }
    proof {
        match idx {
            Some(i) => {
                assert(first_cache_index(v0, marker, 0) == Some(i as int));
            },
            None => {},
        }
    }
    assert(!cached_rule_out(*old(state), marker, opener_len as int, start as int));
    let mut match_end = pos;
    loop
        invariant_except_break
            closers(s, pos as int, max as int, marker, opener_len as int, sc0, mx0) == closers(
                s,
                match_end as int,
                max as int,
                marker,
                opener_len as int,
                cache.scanned,
                cache.max@,
            ),
            cache.scanned == sc0,
            idx matches Some(i) ==> mid == v0.remove(i as int) && i < v0.len(),
            idx is None ==> mid == v0,
            t0 == ctl_of(*old(state)),
            match idx {
                Some(i) => sc0 == v0[i as int].1.scanned && mx0 == v0[i as int].1.max@,
                None => !sc0 && mx0 == Seq::<usize>::empty(),
            },
            first_cache_index(v0, marker, 0) == tick_index(ticks_model(v0), marker, 0),
            match idx {
                Some(i) => first_cache_index(v0, marker, 0) == Some(i as int),
                None => first_cache_index(v0, marker, 0) is None,
            },
            !cached_rule_out(*old(state), marker, opener_len as int, start as int),
            all_unscanned(v0) ==> !cache.scanned && all_unscanned(mid),
            v0 == old(state).inline_env.backticks@,
            start < pos <= match_end <= max <= s.len(),
            state.inline_env.backticks@ == mid,
            state.pos == start,
            state.node == old(state).node,
            state.wf(),
            same_frame(*state, *old(state)),
            state.link_level == old(state).link_level,
            state.inline_env.link_labels == old(state).inline_env.link_labels,
            idx matches Some(i) ==> i <= mid.len(),
            max == old(state).pos_max,
            start == old(state).pos,
            s == old(state).src@,
            s[start as int] == marker,
            !(trailing_text(old(state).node).len() > 0 && trailing_text(old(state).node).last() == marker),
            s == state.src@,
            max == state.pos_max,
            opener_len == pos - start,
            pos == run_end(s, start as int, max as int, marker),
            closing_run(s, match_end as int, max as int, marker, opener_len as int) == closing_run(
                s,
                pos as int,
                max as int,
                marker,
                opener_len as int,
            ),
        ensures
            closers(s, pos as int, max as int, marker, opener_len as int, sc0, mx0) == (
                None::<int>,
                true,
                cache.max@,
            ),
            cache.scanned == sc0,
            closing_run(s, pos as int, max as int, marker, opener_len as int) is None,
            max == state.pos_max,
            state.inline_env.backticks@ == mid,
            state.pos == start,
            state.node == old(state).node,
            state.wf(),
            same_frame(*state, *old(state)),
            state.link_level == old(state).link_level,
            state.inline_env.link_labels == old(state).inline_env.link_labels,
            idx matches Some(i) ==> i <= mid.len(),
            max == old(state).pos_max,
            start == old(state).pos,
            s == old(state).src@,
            s[start as int] == marker,
            !(trailing_text(old(state).node).len() > 0 && trailing_text(old(state).node).last() == marker),
        decreases max - match_end,
    {
        let ghost me_old = match_end;
        let mut j = match_end;
        while j < max && state.src[j] != marker
            invariant
                match_end <= j <= max <= s.len(),
                s == state.src@,
                next_marker(s, match_end as int, max as int, marker) == next_marker(s, j as int, max as int, marker),
            decreases max - j,
        {
            j = j + 1;
        }
        if j >= max {
            break ;
        }
        let match_start = j;
        let mut k = j + 1;
        while k < max && state.src[k] == marker
            invariant
                match_start < k <= max <= s.len(),
                s == state.src@,
                run_end(s, match_start as int, max as int, marker) == run_end(s, k as int, max as int, marker),
            decreases max - k,
        {
            k = k + 1;
        }
        assert(run_end(s, k as int, max as int, marker) == k);
        assert(next_marker(s, j as int, max as int, marker) == Some(j as int));
        match_end = k;
        let closer_len = k - match_start;
        proof {
            lemma_run_end_bounds(s, match_start as int, max as int, marker);
        }
        if closer_len == opener_len {
            assert(closing_run(s, me_old as int, max as int, marker, opener_len as int) == Some(
                (match_start as int, match_end as int),
            ));
            let mut c: Vec<char> = Vec::new();
            let mut i = pos;
            while i < match_start
                invariant
                    pos <= i <= match_start <= max <= s.len(),
                    s == state.src@,
                    c@ == newlines_to_spaces(s.subrange(pos as int, i as int)),
                decreases match_start - i,
            {
                let ch = state.src[i];
                c.push(if ch == '\n' {
                    ' '
                } else {
                    ch
                });
                i = i + 1;
                assert(c@ =~= newlines_to_spaces(s.subrange(pos as int, i as int)));
            }
            let n = c.len();
            let (ts, te, a, b) = if n > 2 && c[0] == ' ' && c[n - 1] == ' ' {
                (pos + 1, match_start - 1, 1, n - 1)
            } else {
                (pos, match_start, 0, n)
            };
            if !silent {
                let text = string_of_range(&c, a, b);
                let inner = Node { value: NodeValue::Text { content: text }, children: Vec::new(), srcmap: state.get_map(ts, te) };
                let mut children: Vec<Node> = Vec::new();
                children.push(inner);
                let span = Node {
                    value: NodeValue::CodeSpan { marker, length: opener_len },
                    children,
                    srcmap: state.get_map(start, match_end),
                };
                proof {
                    lemma_node_is_parsed(inner);
                    assert(span.children@[0] == inner);
                    lemma_node_is_parsed(span);
                }
                assert(span.children@[0] == inner);
                assert(s.subrange(pos as int, match_start as int) =~= s.subrange(
                    start + opener_len,
                    match_end - opener_len,
                ));
                let ghost x = s.subrange(pos as int, match_start as int);
                assert(c@ == newlines_to_spaces(x));
                assert(text@ == span_text(x));
                assert(span.value == (NodeValue::CodeSpan { marker: marker, length: opener_len }));
                assert(span.srcmap == source_range(*old(state), old(state).pos as int, match_end as int));
                assert(span.children@[0].srcmap == source_range(*old(state), ts as int, te as int));
                assert(is_span_node(span, *old(state), marker, opener_len as int, match_end as int, ts as int, te as int));
                let ghost before = state.node.children@;
                state.node.children.push(span);
                assert(state.node.children@.take(before.len() as int) =~= before);
                assert(children_are_parsed(state.node));
            }
            state.pos = match_end;
            assert(span_at(s, start as int, max as int, marker) == Some(
                (opener_len as int, match_end as int, ts as int, te as int),
            ));
            match idx {
                Some(i) => state.inline_env.backticks.insert(i, (marker, cache)),
                None => state.inline_env.backticks.push((marker, cache)),
            }
            proof {
                assert(closers(s, me_old as int, max as int, marker, opener_len as int, cache.scanned, cache.max@)
                    == (Some(match_end as int), cache.scanned, cache.max@));
                assert(ticks_model(state.inline_env.backticks@) =~= put_back(
                    ticks_model(v0),
                    match idx { Some(i) => Some(i as int), None => None },
                    marker,
                    cache.scanned,
                    cache.max@,
                ));
                if !silent {
                    assert(trailing_text(state.node).len() == 0);
                    let ii: Option<int> = match idx { Some(i) => Some(i as int), None => None };
                    assert(tick_index(t0.ticks, marker, 0) == ii);
                    assert(t0.last != Some(marker));
                    assert(closers(s, pos as int, max as int, marker, opener_len as int, sc0, mx0) == (
                        Some(match_end as int),
                        sc0,
                        cache.max@,
                    ));
                    assert(ctl_of(*state).labels == t0.labels);
                    assert(run_end(s, start as int, max as int, marker) - start == opener_len);
                    assert(code_pair_step(cx_of(*old(state)), t0, marker) == (true, ctl_of(*state)));
                }
            }
            return true;
        }
        let ghost was_scanned = cache.scanned;
        let ghost mx_before = cache.max@;
        while cache.max.len() <= closer_len
            invariant
                cache.scanned == was_scanned,
                cache.max@.len() >= mx_before.len(),
                cache.max@ =~= mx_before + Seq::new((cache.max@.len() - mx_before.len()) as nat, |k: int| 0usize),
                cache.max@.len() > mx_before.len() ==> cache.max@.len() <= closer_len + 1,
            decreases closer_len + 1 - cache.max.len(),
        {
            cache.max.push(0);
        }
        if cache.max[closer_len] < match_start {
            cache.max.set(closer_len, match_start);
        }
        proof {
            assert(cache.max@ =~= raise(mx_before, closer_len as int, match_start as int));
            assert(closers(s, me_old as int, max as int, marker, opener_len as int, was_scanned, mx_before)
                == closers(s, match_end as int, max as int, marker, opener_len as int, cache.scanned, cache.max@));
        }
    }
    cache.scanned = true;
    match idx {
        Some(i) => state.inline_env.backticks.insert(i, (marker, cache)),
        None => state.inline_env.backticks.push((marker, cache)),
    }
    proof {
        assert(ticks_model(state.inline_env.backticks@) =~= put_back(
            ticks_model(v0),
            match idx { Some(i) => Some(i as int), None => None },
            marker,
            true,
            cache.max@,
        ));
    }
    false
}

/// Span content that starts and ends with a space around at least one
/// other character loses exactly those two spaces; newlines read as
/// spaces.
pub proof fn lemma_span_text_strips_one_space(y: Seq<char>)
    requires
        y.len() >= 1,
        forall|i: int| 0 <= i < y.len() ==> #[trigger] y[i] != '\n',
    ensures
        span_text(seq![' '] + y + seq![' ']) == y,
{
    let x = seq![' '] + y + seq![' '];
    assert(newlines_to_spaces(x) =~= x);
    assert(x.subrange(1, x.len() - 1) =~= y);
}

/// Span content without newlines that does not both start and end with a
/// space, or that is a single space or two, is its text unchanged.
pub proof fn lemma_span_text_keeps(x: Seq<char>)
    requires
        forall|i: int| 0 <= i < x.len() ==> #[trigger] x[i] != '\n',
        x.len() <= 2 || x[0] != ' ' || x.last() != ' ',
    ensures
        span_text(x) == x,
{
    assert(newlines_to_spaces(x) =~= x);
}

/// Newlines in span content become spaces.
pub proof fn lemma_span_text_newlines(x: Seq<char>)
    requires
        x.len() >= 1,
        x[0] != ' ' && x[0] != '\n',
    ensures
        span_text(x).len() == x.len(),
        forall|i: int| 0 <= i < x.len() ==> #[trigger] span_text(x)[i] == if x[i] == '\n' {
            ' '
        } else {
            x[i]
        },
{
}

proof fn lemma_next_marker_at(s: Seq<char>, i: int, k: int, max: int, m: char)
    requires
        i <= k < max,
        s[k] == m,
        forall|j: int| i <= j < k ==> #[trigger] s[j] != m,
    ensures
        next_marker(s, i, max, m) == Some(k),
    decreases k - i,
{
    if i < k {
        lemma_next_marker_at(s, i + 1, k, max, m);
    }
}

/// A single marker opens a span that the next single marker closes: with
/// no marker in between, the span ends just after the closing marker and
/// its text is what lies between (see [span_text]).
pub proof fn lemma_single_marker_span(s: Seq<char>, pos: int, k: int, max: int, m: char)
    requires
        0 <= pos,
        pos + 1 < k < max <= s.len(),
        s[pos] == m,
        s[k] == m,
        forall|j: int| pos < j < k ==> #[trigger] s[j] != m,
        k + 1 == max || s[k + 1] != m,
    ensures
        span_at(s, pos, max, m) matches Some((n, me, ts, te)) && n == 1 && me == k + 1 && span_text(
            s.subrange(pos + n, me - n),
        ) == span_text(s.subrange(pos + 1, k)),
{
    assert(s[pos + 1] != m);
    assert(run_end(s, pos + 1, max, m) == pos + 1);
    assert(run_end(s, pos, max, m) == pos + 1);
    lemma_next_marker_at(s, pos + 1, k, max, m);
    assert(run_end(s, k + 1, max, m) == k + 1);
    assert(run_end(s, k, max, m) == k + 1);
    assert(closing_run(s, pos + 1, max, m, 1) == Some((k, k + 1)));
}

} // verus!
