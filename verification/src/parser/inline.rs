//! State of inline parsing and the tokenizer that runs the inline rules.
pub mod builtin;
pub mod scan;

use std::collections::HashMap;
use vstd::prelude::*;
use vstd::utf8::encode_utf8;
use crate::node::{Node, NodeValue, children_are_parsed, lemma_node_is_parsed, lemma_parsed_children, node_is_parsed};
use crate::parser::{InlineRuleKind, MarkdownIt};
use crate::generics::inline::full_link;
use crate::generics::inline::full_link::{holds_label_text, lemma_plain_label_run, link_found_at, link_rule_post};
use crate::parser::inline::scan::{same_step, link_ctl, link_tok, inline_tokens, Ctl, ctl_of, cx_of, rules_from, tokenize_ctl, code_pair_step, last_char, Tok, node_tok, nodes_toks, lemma_nodes_toks, lemma_nodes_toks_push, push_text, step_toks, tokens, rules_tok, span_tok, src_range};
use crate::parser::internals::syntax_base::generics::inline::code_pair;
use crate::parser::internals::syntax_base::generics::inline::code_pair::{lemma_unscanned_rules_nothing_out, run_end, span_at};
use crate::references::{Reference, ReferenceMap, find_reference, normalize_label};
use crate::common::utils::{byte_offset, char_len_utf8, lemma_byte_offset_bound, lemma_byte_offset_step, str_chars};

verus! {

broadcast use vstd::std_specs::hash::group_hash_axioms;

/// Where closing runs of a marker were last seen, by run length.
pub struct BacktickCache {
    /// The whole input after some opener has been scanned.
    pub scanned: bool,
    /// `max[n]` is the largest position of a run of `n` markers seen.
    pub max: Vec<usize>,
}

/// No span cache of `v` has seen a whole scan fail.
pub open spec fn all_unscanned(v: Seq<(char, BacktickCache)>) -> bool {
    forall|i: int| 0 <= i < v.len() ==> !(#[trigger] v[i]).1.scanned
}

/// Data kept by inline rules while one piece of inline content is parsed.
pub struct InlineEnv {
    /// Label scans by start position: the position after the label end
    /// (or the scan limit when no end was found), whether a nested link
    /// was found inside, and whether an end was found.
    pub link_labels: HashMap<usize, (usize, bool, bool)>,
    /// Scan results of the span rules, by marker.
    pub backticks: Vec<(char, BacktickCache)>,
}

impl InlineEnv {
    /// No cached scans.
    pub fn new() -> (e: InlineEnv)
        ensures
            e.link_labels@ == Map::<usize, (usize, bool, bool)>::empty(),
            e.backticks@.len() == 0,
    {
        InlineEnv { link_labels: HashMap::new(), backticks: Vec::new() }
    }

    /// Every cached label scan ends after its start and within the input
    /// `src`, and a scan that found an end found a `]` after the start.
    pub open spec fn wf(&self, src: Seq<char>) -> bool {
        forall|k: usize|
            #![trigger self.link_labels@[k]]
            self.link_labels@.contains_key(k) ==> {
                &&& k < self.link_labels@[k].0 <= src.len()
                &&& self.link_labels@[k].2 ==> k + 1 < self.link_labels@[k].0 && src[self.link_labels@[k].0 - 1] == ']'
            }
    }
}

/// Every label scan cached in `a` is cached with the same result in `b`.
pub open spec fn labels_kept(a: InlineEnv, b: InlineEnv) -> bool {
    forall|k: usize|
        #[trigger] a.link_labels@.contains_key(k) ==> b.link_labels@.contains_key(k) && b.link_labels@[k]
            == a.link_labels@[k]
}

/// State of inline parsing of one piece of content.
pub struct InlineState<'a> {
    /// The content being parsed.
    pub src: Vec<char>,
    /// Byte offset in the content of each character position of `src`, and
    /// of its end.
    pub offsets: Vec<usize>,
    /// Current position in `src`.
    pub pos: usize,
    /// End of the part of `src` being parsed.
    pub pos_max: usize,
    /// The parser and its rules.
    pub md: &'a MarkdownIt,
    /// The node whose children are being produced.
    pub node: Node,
    /// How many links enclose the current position.
    pub link_level: usize,
    /// Pairs (byte offset in the content, byte offset in the document)
    /// from which source positions of nodes are computed.
    pub srcmap: Vec<(usize, usize)>,
    /// Data kept by the rules.
    pub inline_env: InlineEnv,
    /// Link reference definitions of the document.
    pub references: Option<&'a ReferenceMap>,
}

/// Document position of `pos`, from the last mapping pair that starts at or
/// before it.
pub open spec fn map_position(m: Seq<(usize, usize)>, pos: int) -> Option<int>
    decreases m.len(),
{
    if m.len() == 0 {
        None
    } else if m.last().0 <= pos {
        Some(m.last().1 + (pos - m.last().0))
    } else {
        map_position(m.drop_last(), pos)
    }
}

/// Source position of `start..end` through `m`.
pub open spec fn map_range(m: Seq<(usize, usize)>, start: int, end: int) -> Option<(usize, usize)> {
    match (map_position(m, start), map_position(m, end)) {
        (Some(a), Some(b)) => if a <= usize::MAX && b <= usize::MAX {
            Some((a as usize, b as usize))
        } else {
            None
        },
        _ => None,
    }
}

/// Source position of the characters `start..end` of the content of `st`:
/// their byte offsets in the content, mapped through the mapping pairs.
pub open spec fn source_range(st: InlineState, start: int, end: int) -> Option<(usize, usize)> {
    map_range(st.srcmap@, byte_offset(st.src@, start) as int, byte_offset(st.src@, end) as int)
}

/// The text of the last child of `n` when it is a text node, else nothing.
pub open spec fn trailing_text(n: Node) -> Seq<char> {
    if n.children@.len() > 0 {
        match n.children@.last().value {
            NodeValue::Text { content } => content@,
            _ => Seq::empty(),
        }
    } else {
        Seq::empty()
    }
}

/// The last child of `n` is a text node.
pub open spec fn ends_with_text(n: Node) -> bool {
    n.children@.len() > 0 && n.children@.last().value is Text
}

/// The parts of the state that no rule changes.
pub open spec fn same_frame(a: InlineState, b: InlineState) -> bool {
    &&& a.src == b.src
    &&& a.offsets == b.offsets
    &&& a.md == b.md
    &&& a.srcmap == b.srcmap
    &&& a.references == b.references
}

impl<'a> InlineState<'a> {
    /// Positions are ordered and within the content, byte offsets are
    /// those of the content, the content leaves room for position
    /// arithmetic, nesting is bounded by the remaining input, caches hold
    /// positions of the content, and every node below the current node is
    /// parsed.
    pub open spec fn wf(&self) -> bool {
        &&& self.pos <= self.pos_max
        &&& self.wf_any_pos()
    }

    /// [InlineState::wf] without the bound of the position by the end of
    /// the parsed part.
    pub open spec fn wf_any_pos(&self) -> bool {
        &&& self.offsets_ok()
        &&& self.pos <= self.src@.len()
        &&& self.pos_max <= self.src@.len()
        &&& self.src@.len() < usize::MAX / 2
        &&& self.link_level + self.pos_max - self.pos <= self.src@.len()
        &&& self.inline_env.wf(self.src@)
        &&& children_are_parsed(self.node)
    }

    /// `offsets` holds the byte offset of each character position.
    pub open spec fn offsets_ok(&self) -> bool {
        &&& self.offsets@.len() == self.src@.len() + 1
        &&& forall|k: int| 0 <= k <= self.src@.len() ==> #[trigger] self.offsets@[k] == byte_offset(self.src@, k)
    }

    /// Source position of the characters `start..end` in the document.
    pub fn get_map(&self, start: usize, end: usize) -> (r: Option<(usize, usize)>)
        requires
            self.offsets_ok(),
            start <= self.src@.len(),
            end <= self.src@.len(),
        ensures
            r == source_range(*self, start as int, end as int),
    {
        let a = map_find(&self.srcmap, self.offsets[start]);
        let b = map_find(&self.srcmap, self.offsets[end]);
        match (a, b) {
            (Some(a), Some(b)) => Some((a, b)),
            _ => None,
        }
    }

    /// The text of the last child of the current node when it is text.
    pub fn trailing_text_ends_with(&self, c: char) -> (r: bool)
        ensures
            r == (trailing_text(self.node).len() > 0 && trailing_text(self.node).last() == c),
    {
        let n = self.node.children.len();
        if n == 0 {
            return false;
        }
        match &self.node.children[n - 1].value {
            NodeValue::Text { content } => {
                let s = content.as_str();
                let len = s.unicode_len();
                len > 0 && s.get_char(len - 1) == c
            },
            _ => false,
        }
    }

    /// Appends `src[start..end]` to the text at the end of the current
    /// node, starting a new text node when the last child is not text.
    pub fn trailing_text_push(&mut self, start: usize, end: usize)
        requires
            old(self).wf(),
            start <= end <= old(self).src@.len(),
        ensures
            final(self).wf(),
            same_frame(*final(self), *old(self)),
            final(self).pos == old(self).pos,
            final(self).pos_max == old(self).pos_max,
            final(self).link_level == old(self).link_level,
            final(self).node.value == old(self).node.value,
            final(self).inline_env == old(self).inline_env,
            trailing_text(final(self).node) == trailing_text(old(self).node) + old(self).src@.subrange(start as int, end as int),
            end == start + 1 ==> nodes_toks(final(self).node.children@) == push_text(
                cx_of(*old(self)),
                nodes_toks(old(self).node.children@),
                start as int,
            ),
            ends_with_text(final(self).node),
            final(self).node.children@.len() == old(self).node.children@.len() + (if ends_with_text(old(self).node) {
                0int
            } else {
                1int
            }),
    {
        let n = self.node.children.len();
        let mut appended = false;
        if n > 0 {
            let is_text = match &self.node.children[n - 1].value {
                NodeValue::Text { .. } => true,
                _ => false,
            };
            if is_text {
                let ghost old_children = self.node.children@;
                let last = self.node.children.pop().unwrap();
                assert(node_is_parsed(old_children[n - 1]));
                assert(last == old_children[n - 1]);
                let Node { value, children, srcmap } = last;
                match value {
                    NodeValue::Text { content } => {
                        let mut content = content;
                        let mut i = start;
                        while i < end
                            invariant
                                start <= i <= end <= self.src@.len(),
                                content@ == trailing_text(old(self).node) + self.src@.subrange(start as int, i as int),
                            decreases end - i,
                        {
                            content.push(self.src[i]);
                            i = i + 1;
                            assert(content@ =~= trailing_text(old(self).node) + self.src@.subrange(start as int, i as int));
                        }
                        let map_start = match srcmap {
                            Some((a, _)) => Some(a),
                            None => None,
                        };
                        let new_map = match (map_start, self.get_map(start, end)) {
                            (Some(a), Some((_, b))) => Some((a, b)),
                            _ => None,
                        };
                        let new_node = Node { value: NodeValue::Text { content }, children, srcmap: new_map };
                        proof {
                            lemma_parsed_children(last);
                            lemma_node_is_parsed(new_node);
                        }
                        self.node.children.push(new_node);
                        assert(self.node.children@ =~= old_children.drop_last().push(new_node));
                        proof {
                            lemma_nodes_toks_push(old_children, new_node);
                            lemma_nodes_toks(old_children);
                            if end == start + 1 {
                                assert(content@ =~= trailing_text(old(self).node).push(self.src@[start as int]));
                                assert(nodes_toks(old_children).last() == node_tok(old_children[n - 1]));
                            }
                        }
                        assert(children_are_parsed(self.node));
                        appended = true;
                    },
                    _ => {},
                }
            }
        }
        if !appended {
            let mut content = String::new();
            let mut i = start;
            while i < end
                invariant
                    start <= i <= end <= self.src@.len(),
                    content@ == self.src@.subrange(start as int, i as int),
                decreases end - i,
            {
                content.push(self.src[i]);
                i = i + 1;
                assert(content@ =~= self.src@.subrange(start as int, i as int));
            }
            let map = self.get_map(start, end);
            let new_node = Node { value: NodeValue::Text { content }, children: Vec::new(), srcmap: map };
            proof {
                lemma_node_is_parsed(new_node);
            }
            let ghost before = self.node.children@;
            self.node.children.push(new_node);
            assert(self.node.children@ =~= before.push(new_node));
            proof {
                lemma_nodes_toks_push(before, new_node);
                lemma_nodes_toks(before);
                if end == start + 1 {
                    assert(content@ =~= seq![self.src@[start as int]]);
                    if before.len() > 0 {
                        assert(nodes_toks(before).last() == node_tok(before[before.len() - 1]));
                    }
                }
            }
            assert(children_are_parsed(self.node));
        }
    }
}

/// Document position of `pos` through the mapping pairs `m`.
fn map_find(m: &Vec<(usize, usize)>, pos: usize) -> (r: Option<usize>)
    ensures
        match map_position(m@, pos as int) {
            Some(x) => if x <= usize::MAX { r == Some(x as usize) } else { r is None },
            None => r is None,
        },
{
    let mut i = m.len();
    assert(m@.take(i as int) =~= m@);
    while i > 0
        invariant
            i <= m@.len(),
            map_position(m@, pos as int) == map_position(m@.take(i as int), pos as int),
        decreases i,
    {
        let (a, b) = m[i - 1];
        assert(m@.take(i as int).last() == m@[i - 1]);
        if a <= pos {
            let d = pos - a;
            if b <= usize::MAX - d {
                return Some(b + d);
            } else {
                return None;
            }
        }
        assert(m@.take(i as int).drop_last() =~= m@.take(i - 1));
        i = i - 1;
    }
    None
}

/// `r` can start a token at the character `c`: a link rule at `[`, a
/// prefixed link rule at its prefix, a span rule at its marker.
pub open spec fn rule_starts_with(r: InlineRuleKind, c: char) -> bool {
    match r {
        InlineRuleKind::Link(_) => c == '[',
        InlineRuleKind::LinkPrefix(p) => c == p.prefix,
        InlineRuleKind::LinkEnd(_) => false,
        InlineRuleKind::CodePair(m) => c == m,
    }
}

/// One of `rules` can start a token at the character `c`.
pub open spec fn starts_token(rules: Seq<InlineRuleKind>, c: char) -> bool {
    exists|i: int| 0 <= i < rules.len() && #[trigger] rule_starts_with(rules[i], c)
}

/// Index of the first of `rules`, from `i` on, that can start a token at
/// the character `c`.
pub open spec fn first_starting_rule(rules: Seq<InlineRuleKind>, c: char, i: int) -> Option<int>
    decreases rules.len() - i,
{
    if i < 0 || i >= rules.len() {
        None
    } else if rule_starts_with(rules[i], c) {
        Some(i)
    } else {
        first_starting_rule(rules, c, i + 1)
    }
}

/// The first rule found from `i` on is at or after `i` and can start a
/// token at `c`.
pub proof fn lemma_first_starting_rule(rules: Seq<InlineRuleKind>, c: char, i: int)
    requires
        0 <= i,
    ensures
        first_starting_rule(rules, c, i) matches Some(j) ==> i <= j < rules.len() && rule_starts_with(
            rules[j],
            c,
        ),
    decreases rules.len() - i,
{
    if i < rules.len() && !rule_starts_with(rules[i], c) {
        lemma_first_starting_rule(rules, c, i + 1);
    }
}

proof fn lemma_first_starting_rule_min(rules: Seq<InlineRuleKind>, c: char, k: int, i: int)
    requires
        0 <= k <= i < rules.len(),
        rule_starts_with(rules[i], c),
    ensures
        first_starting_rule(rules, c, k) matches Some(j) && j <= i,
    decreases i - k,
{
    if !rule_starts_with(rules[k], c) {
        lemma_first_starting_rule_min(rules, c, k + 1, i);
    }
}

/// The marker of the span rule that the tokenizer runs first at the
/// current position of `st`, when the first rule that can start a token
/// there is a span rule.
pub open spec fn first_span_rule(st: InlineState) -> Option<char> {
    match first_starting_rule(st.md.inline.rules@, st.src@[st.pos as int], 0) {
        Some(i) => match st.md.inline.rules@[i] {
            InlineRuleKind::CodePair(m) => Some(m),
            _ => None,
        },
        None => None,
    }
}

/// A span is known to be found at the current position of `st`: the first
/// rule that can start a token there is the span rule for `m`, no span
/// cache has seen a whole scan fail, no text precedes, and a closing run
/// follows (see [span_at]).
pub open spec fn span_found_at(st: InlineState) -> Option<(char, int)> {
    match first_span_rule(st) {
        Some(m) => if all_unscanned(st.inline_env.backticks@) && trailing_text(st.node).len() == 0 {
            match span_at(st.src@, st.pos as int, st.pos_max as int, m) {
                Some((_, me, _, _)) => Some((m, me)),
                None => None,
            }
        } else {
            None
        },
        None => None,
    }
}

/// When the first rule that can start a token at the current position of
/// `st` is a link rule that runs there: the offset of its label, its
/// prefix (`'\0'` for none) and whether it allows nested links.
pub open spec fn first_link_rule(st: InlineState) -> Option<(usize, char, bool)> {
    let rules = st.md.inline.rules@;
    match first_starting_rule(rules, st.src@[st.pos as int], 0) {
        Some(i) => match rules[i] {
            InlineRuleKind::Link(sc) => Some((0usize, '\0', sc.enable_nested)),
            InlineRuleKind::LinkPrefix(sc) => if st.pos + 1 < st.pos_max && st.src@[st.pos + 1] == '[' {
                Some((1usize, sc.prefix, sc.enable_nested))
            } else {
                None
            },
            _ => None,
        },
        None => None,
    }
}

/// Runs the inline rules at the current position, in order, until one
/// matches; when none does, the current character is added to the
/// trailing text. Returns `None` at the end of the parsed part, and
/// otherwise whether a rule matched; the position then has moved forward.
/// A matching rule adds exactly one node, which is not text; a character
/// that starts no token is always text.
#[verifier::rlimit(100)]
#[verifier::spinoff_prover]
pub fn tokenize_one(state: &mut InlineState) -> (r: Option<bool>)
    requires
        old(state).wf(),
    ensures
        final(state).wf(),
        same_frame(*final(state), *old(state)),
        final(state).pos_max == old(state).pos_max,
        final(state).link_level == old(state).link_level,
        final(state).node.value == old(state).node.value,
        r is None <==> old(state).pos >= old(state).pos_max,
        r is None ==> final(state).pos == old(state).pos,
        r is Some ==> old(state).pos < final(state).pos <= final(state).pos_max,
        r == Some(false) ==> final(state).pos == old(state).pos + 1 && trailing_text(final(state).node)
            == trailing_text(old(state).node) + seq![old(state).src@[old(state).pos as int]]
            && ends_with_text(final(state).node) && final(state).node.children@.len() == old(state).node.children@.len() + (
            if ends_with_text(old(state).node) {
                0int
            } else {
                1int
            }),
        (old(state).pos < old(state).pos_max && !starts_token(old(state).md.inline.rules@, old(state).src@[old(state).pos as int]))
            ==> r == Some(false) && final(state).inline_env == old(state).inline_env,
        labels_kept(old(state).inline_env, final(state).inline_env),
        old(state).pos < old(state).pos_max ==> match first_link_rule(*old(state)) {
            Some((offset, prefix, nested)) => link_found_at(*old(state), offset as int, nested) is Some ==> {
                &&& r == Some(true)
                &&& exists|f: InlineState, len: usize|
                    #[trigger] link_rule_post(*old(state), f, Some(len), prefix, offset, nested)
                        && final(state).node == f.node && final(state).pos == f.pos + len
            },
            None => true,
        },
        old(state).pos < old(state).pos_max ==> match span_found_at(*old(state)) {
            Some((_, me)) => {
                &&& r == Some(true)
                &&& final(state).pos == me
                &&& final(state).inline_env.link_labels == old(state).inline_env.link_labels
                &&& all_unscanned(final(state).inline_env.backticks@)
            },
            None => true,
        },
        old(state).pos < old(state).pos_max ==> nodes_toks(final(state).node.children@) == step_toks(
            cx_of(*old(state)),
            ctl_of(*old(state)),
            nodes_toks(old(state).node.children@),
        ),
        old(state).pos < old(state).pos_max ==> (ctl_of(*final(state)), r) == (
            rules_from(cx_of(*old(state)), ctl_of(*old(state)), 0).0,
            Some(rules_from(cx_of(*old(state)), ctl_of(*old(state)), 0).1),
        ),
        r == Some(true) ==> {
            &&& final(state).node.children@.len() == old(state).node.children@.len() + 1
            &&& final(state).node.children@.take(old(state).node.children@.len() as int) == old(state).node.children@
            &&& !ends_with_text(final(state).node)
        },
    decreases old(state).pos_max - old(state).pos, 10int,
{
    if state.pos >= state.pos_max {
        return None;
    }
    let md = state.md;
    let ch = state.src[state.pos];
    let n = md.inline.rules.len();
    let mut i: usize = 0;
    let ghost cx = cx_of(*old(state));
    assert(same_step(cx, ctl_of(*old(state)), ctl_of(*state), 0)) by {
        reveal(same_step);
    }
    while i < n
        invariant
            cx == cx_of(*state),
            cx == cx_of(*old(state)),
            same_step(cx, ctl_of(*old(state)), ctl_of(*state), i as int),
            state.wf(),
            same_frame(*state, *old(state)),
            state.pos == old(state).pos,
            state.pos < state.pos_max,
            state.pos_max == old(state).pos_max,
            state.link_level == old(state).link_level,
            state.node == old(state).node,
            md == state.md,
            n == md.inline.rules@.len(),
            ch == state.src@[state.pos as int],
            !starts_token(md.inline.rules@, ch) ==> state.inline_env == old(state).inline_env,
            labels_kept(old(state).inline_env, state.inline_env),
            i <= n,
            first_starting_rule(md.inline.rules@, ch, 0) == first_starting_rule(md.inline.rules@, ch, i as int)
                ==> *state == *old(state),
            (match first_link_rule(*old(state)) {
                Some((offset, _, nested)) => link_found_at(*old(state), offset as int, nested) is Some,
                None => false,
            }) ==> first_starting_rule(md.inline.rules@, ch, 0) == first_starting_rule(md.inline.rules@, ch, i as int),
            span_found_at(*old(state)) is Some ==> first_starting_rule(md.inline.rules@, ch, 0) == first_starting_rule(
                md.inline.rules@,
                ch,
                i as int,
            ),
        decreases n - i,
    {
        let ghost s_it = *state;
        proof {
            if rule_starts_with(md.inline.rules@[i as int], ch) {
                lemma_first_starting_rule_min(md.inline.rules@, ch, 0, i as int);
            }
        }
        assert(!starts_token(md.inline.rules@, ch) ==> !rule_starts_with(md.inline.rules@[i as int], ch));
        proof {
            lemma_first_starting_rule(md.inline.rules@, ch, 0);
            lemma_first_starting_rule(md.inline.rules@, ch, i as int + 1);
        }
        match &md.inline.rules[i] {
            InlineRuleKind::Link(sc) => {
                if ch == '[' {
                    let ghost si = *state;
                    let rr = full_link::rule(state, sc.enable_nested, 0, '\0');
                    assert((ctl_of(*state), match rr {
                        Some(l) => Some(l as int),
                        None => None,
                    }) == link_ctl(cx, ctl_of(si), sc.enable_nested, 0)) by {
                        reveal(full_link::link_rule_follows);
                    }
                    match rr {
                        Some(len) => {
                            let ghost f = *state;
                            state.pos = state.pos + len;
                            proof {
                                assert(md.inline.rules@[i as int] == InlineRuleKind::Link(*sc));
                                assert(first_starting_rule(md.inline.rules@, ch, i as int) == Some(i as int));
                                if first_starting_rule(md.inline.rules@, ch, 0) == Some(i as int) {
                                    assert(first_link_rule(*old(state)) == Some((0usize, '\0', sc.enable_nested)));
                                    assert(link_rule_post(*old(state), f, Some(len), '\0', 0, sc.enable_nested));
                                    assert(state.node == f.node && state.pos == f.pos + len);
                                    assert(exists|f2: InlineState, len2: usize|
                                        #[trigger] link_rule_post(*old(state), f2, Some(len2), '\0', 0usize, sc.enable_nested)
                                            && state.node == f2.node && state.pos == f2.pos + len2);
                                    let t = first_link_rule(*old(state)).unwrap();
                                    assert(t.0 == 0usize && t.1 == '\0' && t.2 == sc.enable_nested);
                                } else {
                                    assert(!(match first_link_rule(*old(state)) {
                                        Some((offset, _, nested)) => link_found_at(*old(state), offset as int, nested) is Some,
                                        None => false,
                                    }));
                                }
                                assert(match first_link_rule(*old(state)) {
                                    Some((offset, prefix, nested)) => link_found_at(*old(state), offset as int, nested) is Some ==> {
                                        exists|f3: InlineState, len3: usize|
                                            #[trigger] link_rule_post(*old(state), f3, Some(len3), prefix, offset, nested)
                                                && state.node == f3.node && state.pos == f3.pos + len3
                                    },
                                    None => true,
                                });
                                assert(cx.rules[i as int] == InlineRuleKind::Link(*sc));
                                assert(cx.src[si.pos as int] == '[');
                                assert(trailing_text(state.node).len() == 0);
                                assert(rules_from(cx, ctl_of(si), i as int) == (ctl_of(*state), true)) by {
                                    reveal(rules_from);
                                    reveal(rules_tok);
                                }
                                assert(node_tok(state.node.children@.last()) == link_tok(cx, ctl_of(si), sc.enable_nested, 0, '\0')) by {
                                    reveal(full_link::link_rule_node);
                                }
                                assert(nodes_toks(state.node.children@) == nodes_toks(si.node.children@).push(
                                    node_tok(state.node.children@.last()),
                                )) by {
                                    lemma_nodes_toks_push(si.node.children@, state.node.children@.last());
                                    assert(state.node.children@ =~= si.node.children@.push(state.node.children@.last()));
                                }
                                assert(rules_tok(cx, ctl_of(si), i as int) == node_tok(state.node.children@.last())) by {
                                    reveal(rules_from);
                                    reveal(rules_tok);
                                }
                                assert(rules_from(cx, ctl_of(*old(state)), 0) == rules_from(cx, ctl_of(si), i as int)
                                    && rules_tok(cx, ctl_of(*old(state)), 0) == rules_tok(cx, ctl_of(si), i as int)) by {
                                    reveal(same_step);
                                }
                            }
                            return Some(true);
                        },
                        None => {},
                    }
                }
            },
            InlineRuleKind::LinkPrefix(sc) => {
                if ch == sc.prefix && state.pos + 1 < state.pos_max && state.src[state.pos + 1] == '[' {
                    let ghost si = *state;
                    let rr = full_link::rule(state, sc.enable_nested, 1, sc.prefix);
                    assert((ctl_of(*state), match rr {
                        Some(l) => Some(l as int),
                        None => None,
                    }) == link_ctl(cx, ctl_of(si), sc.enable_nested, 1)) by {
                        reveal(full_link::link_rule_follows);
                    }
                    match rr {
                        Some(len) => {
                            let ghost f = *state;
                            state.pos = state.pos + len;
                            proof {
                                assert(md.inline.rules@[i as int] == InlineRuleKind::LinkPrefix(*sc));
                                assert(first_starting_rule(md.inline.rules@, ch, i as int) == Some(i as int));
                                if first_starting_rule(md.inline.rules@, ch, 0) == Some(i as int) {
                                    assert(first_link_rule(*old(state)) == Some((1usize, sc.prefix, sc.enable_nested)));
                                    assert(link_rule_post(*old(state), f, Some(len), sc.prefix, 1, sc.enable_nested));
                                    assert(state.node == f.node && state.pos == f.pos + len);
                                    assert(exists|f2: InlineState, len2: usize|
                                        #[trigger] link_rule_post(*old(state), f2, Some(len2), sc.prefix, 1usize, sc.enable_nested)
                                            && state.node == f2.node && state.pos == f2.pos + len2);
                                    let t = first_link_rule(*old(state)).unwrap();
                                    assert(t.0 == 1usize && t.1 == sc.prefix && t.2 == sc.enable_nested);
                                } else {
                                    assert(!(match first_link_rule(*old(state)) {
                                        Some((offset, _, nested)) => link_found_at(*old(state), offset as int, nested) is Some,
                                        None => false,
                                    }));
                                }
                                assert(cx.rules[i as int] == InlineRuleKind::LinkPrefix(*sc));
                                assert(cx.src[si.pos as int] == sc.prefix && cx.src[si.pos + 1] == '[');
                                assert(trailing_text(state.node).len() == 0);
                                assert(rules_from(cx, ctl_of(si), i as int) == (ctl_of(*state), true)) by {
                                    reveal(rules_from);
                                    reveal(rules_tok);
                                }
                                assert(node_tok(state.node.children@.last()) == link_tok(cx, ctl_of(si), sc.enable_nested, 1, sc.prefix)) by {
                                    reveal(full_link::link_rule_node);
                                }
                                assert(nodes_toks(state.node.children@) == nodes_toks(si.node.children@).push(
                                    node_tok(state.node.children@.last()),
                                )) by {
                                    lemma_nodes_toks_push(si.node.children@, state.node.children@.last());
                                    assert(state.node.children@ =~= si.node.children@.push(state.node.children@.last()));
                                }
                                assert(rules_tok(cx, ctl_of(si), i as int) == node_tok(state.node.children@.last())) by {
                                    reveal(rules_from);
                                    reveal(rules_tok);
                                }
                                assert(rules_from(cx, ctl_of(*old(state)), 0) == rules_from(cx, ctl_of(si), i as int)
                                    && rules_tok(cx, ctl_of(*old(state)), 0) == rules_tok(cx, ctl_of(si), i as int)) by {
                                    reveal(same_step);
                                }
                            }
                            return Some(true);
                        },
                        None => {},
                    }
                }
            },
            InlineRuleKind::LinkEnd(_) => {},
            InlineRuleKind::CodePair(m) => {
                let ghost st_i = *state;
                proof {
                    if all_unscanned(st_i.inline_env.backticks@) {
                        lemma_unscanned_rules_nothing_out(
                            st_i,
                            *m,
                            run_end(st_i.src@, st_i.pos as int, st_i.pos_max as int, *m) - st_i.pos,
                            st_i.pos as int,
                        );
                    }
                }
                if code_pair::rule(state, *m, false) {
                    proof {
                        assert(cx.rules[i as int] == InlineRuleKind::CodePair(*m));
                        assert(rules_from(cx, ctl_of(st_i), i as int) == (ctl_of(*state), true)) by {
                                    reveal(rules_from);
                                    reveal(rules_tok);
                                }
                        assert(nodes_toks(state.node.children@) == nodes_toks(st_i.node.children@).push(
                            node_tok(state.node.children@.last()),
                        )) by {
                            lemma_nodes_toks_push(st_i.node.children@, state.node.children@.last());
                            assert(state.node.children@ =~= st_i.node.children@.push(state.node.children@.last()));
                        }
                        assert(rules_tok(cx, ctl_of(st_i), i as int) == node_tok(state.node.children@.last())) by {
                                    reveal(rules_from);
                                    reveal(rules_tok);
                                }
                        assert(rules_from(cx, ctl_of(*old(state)), 0) == rules_from(cx, ctl_of(st_i), i as int)
                            && rules_tok(cx, ctl_of(*old(state)), 0) == rules_tok(cx, ctl_of(st_i), i as int)) by {
                            reveal(same_step);
                        }
                    }
                    return Some(true);
                }
                proof {
                    assert(md.inline.rules@[i as int] == InlineRuleKind::CodePair(*m));
                    if span_found_at(*old(state)) is Some && first_starting_rule(md.inline.rules@, ch, 0)
                        == Some(i as int) {
                        assert(st_i == *old(state));
                        assert(first_span_rule(*old(state)) == Some(*m));
                        assert(false);
                    }
                }
            },
        }
        assert(same_step(cx, ctl_of(*old(state)), ctl_of(*state), i + 1)) by {
            reveal(same_step);
            reveal(rules_from);
            reveal(rules_tok);
        }
        i = i + 1;
    }
    assert(rules_from(cx, ctl_of(*old(state)), 0) == (
        Ctl { pos: state.pos + 1, last: Some(cx.src[state.pos as int]), ..ctl_of(*state) },
        false,
    )) by {
        reveal(same_step);
        reveal(rules_from);
    }
    let p = state.pos;
    state.trailing_text_push(p, p + 1);
    assert(state.src@.subrange(p as int, p + 1) =~= seq![state.src@[p as int]]);
    state.pos = p + 1;
    Some(false)
}

/// Runs [tokenize_one] until the end of the parsed part.
pub fn tokenize(state: &mut InlineState)
    requires
        old(state).wf(),
    ensures
        final(state).wf(),
        same_frame(*final(state), *old(state)),
        final(state).pos_max == old(state).pos_max,
        final(state).pos == final(state).pos_max,
        final(state).link_level == old(state).link_level,
        final(state).node.value == old(state).node.value,
        labels_kept(old(state).inline_env, final(state).inline_env),
        ctl_of(*final(state)) == tokenize_ctl(cx_of(*old(state)), ctl_of(*old(state))),
        nodes_toks(final(state).node.children@) == tokens(
            cx_of(*old(state)),
            ctl_of(*old(state)),
            nodes_toks(old(state).node.children@),
        ),
        old(state).pos == old(state).pos_max ==> final(state).node == old(state).node,
        old(state).pos < old(state).pos_max ==> match first_link_rule(*old(state)) {
            Some((offset, prefix, nested)) => link_found_at(*old(state), offset as int, nested) is Some ==> exists|
                f: InlineState,
                len: usize,
            |
                #[trigger] link_rule_post(*old(state), f, Some(len), prefix, offset, nested) && (f.pos + len
                    == old(state).pos_max ==> final(state).node == f.node),
            None => true,
        },
        old(state).pos < old(state).pos_max && plain_text(*old(state)) ==> {
            &&& trailing_text(final(state).node) == trailing_text(old(state).node) + old(state).src@.subrange(
                old(state).pos as int,
                old(state).pos_max as int,
            )
            &&& ends_with_text(final(state).node)
            &&& final(state).node.children@.len() == old(state).node.children@.len() + (if ends_with_text(
                old(state).node,
            ) {
                0int
            } else {
                1int
            })
        },
    decreases old(state).pos_max - old(state).pos, 12int,
{
    let ghost plain = plain_text(*old(state));
    let ghost mut s1: InlineState = *old(state);
    let ghost cx = cx_of(*old(state));
    while state.pos < state.pos_max
        invariant
            cx == cx_of(*old(state)),
            cx == cx_of(*state),
            tokenize_ctl(cx, ctl_of(*old(state))) == tokenize_ctl(cx, ctl_of(*state)),
            tokens(cx, ctl_of(*old(state)), nodes_toks(old(state).node.children@)) == tokens(
                cx,
                ctl_of(*state),
                nodes_toks(state.node.children@),
            ),
            state.pos == old(state).pos ==> *state == *old(state),
            state.pos > old(state).pos ==> first_step(*old(state), s1) && (s1.pos == state.pos_max ==> *state
                == s1),
            state.wf(),
            same_frame(*state, *old(state)),
            state.pos_max == old(state).pos_max,
            state.pos >= old(state).pos,
            state.link_level == old(state).link_level,
            labels_kept(old(state).inline_env, state.inline_env),
            state.node.value == old(state).node.value,
            plain == plain_text(*old(state)),
            plain ==> trailing_text(state.node) == trailing_text(old(state).node) + old(state).src@.subrange(
                old(state).pos as int,
                state.pos as int,
            ),
            plain && state.pos == old(state).pos ==> state.node == old(state).node,
            plain && state.pos > old(state).pos ==> ends_with_text(state.node) && state.node.children@.len()
                == old(state).node.children@.len() + (if ends_with_text(old(state).node) {
                0int
            } else {
                1int
            }),
        decreases state.pos_max - state.pos,
    {
        let ghost p = state.pos;
        proof {
            if plain {
                assert(!starts_token(state.md.inline.rules@, state.src@[p as int]));
            }
        }
        let ghost was_first = state.pos == old(state).pos;
        let ghost before = ctl_of(*state);
        let ghost acc = nodes_toks(state.node.children@);
        tokenize_one(state);
        assert(cx_of(*state) == cx);
        assert(ctl_of(*state) == rules_from(cx, before, 0).0);
        assert(before.pos < ctl_of(*state).pos <= before.max);
        assert(tokenize_ctl(cx, before) == tokenize_ctl(cx, ctl_of(*state))) by {
            reveal(rules_from);
        }
        assert(tokens(cx, before, acc) == tokens(cx, ctl_of(*state), nodes_toks(state.node.children@))) by {
            reveal(rules_from);
            reveal(rules_tok);
        }
        proof {
            if was_first {
                s1 = *state;
            }
            if plain {
                assert(old(state).src@.subrange(old(state).pos as int, state.pos as int) =~= old(
                    state,
                ).src@.subrange(old(state).pos as int, p as int).push(old(state).src@[p as int]));
            }
        }
    }
}

/// `s` is what the first step of tokenizing from `o` gives when the first
/// rule that can start a token at the position of `o` is a link rule known
/// to find a link there: the outcome of that link rule.
pub open spec fn first_step(o: InlineState, s: InlineState) -> bool {
    match first_link_rule(o) {
        Some((offset, prefix, nested)) => link_found_at(o, offset as int, nested) is Some ==> exists|
            f: InlineState,
            len: usize,
        | #[trigger] link_rule_post(o, f, Some(len), prefix, offset, nested) && s.node == f.node && s.pos == f.pos + len,
        None => true,
    }
}

/// No character of `content` can start a token of one of the `rules`, and
/// the content is short enough for byte offsets to be computed.
pub open spec fn plain_content(rules: Seq<InlineRuleKind>, content: Seq<char>) -> bool {
    &&& content.len() < usize::MAX / 4
    &&& forall|j: int| 0 <= j < content.len() ==> !starts_token(rules, #[trigger] content[j])
}

/// No character of the part of the content being parsed can start a token.
pub open spec fn plain_text(st: InlineState) -> bool {
    forall|j: int| st.pos <= j < st.pos_max ==> !starts_token(st.md.inline.rules@, #[trigger] st.src@[j])
}

/// A rule of the inline parser, run at a position of inline content.
pub trait InlineRule {
    /// Tries the rule at the current position. On success returns the
    /// length by which the position is to move forward, having added the
    /// nodes the rule produces; otherwise leaves position and node alone.
    fn run(&self, state: &mut InlineState) -> (r: Option<usize>)
        requires
            old(state).wf(),
            old(state).pos < old(state).pos_max,
        ensures
            final(state).wf(),
            same_frame(*final(state), *old(state)),
            final(state).pos_max == old(state).pos_max,
            final(state).link_level == old(state).link_level,
            r is None ==> final(state).pos == old(state).pos && final(state).node == old(state).node,
            r matches Some(len) ==> old(state).pos < final(state).pos + len <= final(state).pos_max,
    ;
}

/// Byte offset of each character position of `v` and of its end; `None`
/// when the last one does not fit in a `usize`.
fn byte_offsets(v: &Vec<char>) -> (r: Option<Vec<usize>>)
    ensures
        r matches Some(o) ==> o@.len() == v@.len() + 1 && forall|k: int|
            0 <= k <= v@.len() ==> #[trigger] o@[k] == byte_offset(v@, k),
        r is None ==> byte_offset(v@, v@.len() as int) > usize::MAX,
{
    let mut o: Vec<usize> = Vec::new();
    let mut acc: usize = 0;
    let mut k: usize = 0;
    assert(v@.take(0) =~= Seq::<char>::empty());
    o.push(0);
    while k < v.len()
        invariant
            k <= v@.len(),
            acc == byte_offset(v@, k as int),
            o@.len() == k + 1,
            forall|j: int| 0 <= j <= k ==> #[trigger] o@[j] == byte_offset(v@, j),
        decreases v@.len() - k,
    {
        proof {
            lemma_byte_offset_step(v@, k as int);
        }
        let w = char_len_utf8(v[k]);
        if acc > usize::MAX - w {
            proof {
                crate::common::utils::lemma_byte_offset_mono(v@, k as int + 1, v@.len() as int);
            }
            return None;
        }
        acc = acc + w;
        k = k + 1;
        o.push(acc);
    }
    Some(o)
}

/// The entries of the reference definitions, if any.
pub open spec fn entries_of(references: Option<&ReferenceMap>) -> Option<Seq<(String, Reference)>> {
    match references {
        Some(refs) => Some(refs.entries@),
        None => None,
    }
}

/// For content `[label]` whose label holds plain text (no `]` and no
/// character that can start a token), when the first rule that can start a
/// token at `[` is a link rule: the definition the label names among
/// `references`.
pub open spec fn shortcut_link_content(
    rules: Seq<InlineRuleKind>,
    references: Option<Seq<(String, Reference)>>,
    content: Seq<char>,
) -> Option<Reference> {
    let n = content.len();
    if 2 <= n < usize::MAX / 4 && content[0] == '[' && content[n - 1] == ']' && (forall|j: int|
        1 <= j < n - 1 ==> #[trigger] content[j] != ']' && !starts_token(rules, content[j])) {
        match first_starting_rule(rules, '[', 0) {
            Some(i) => if rules[i] is Link {
                match references {
                    Some(entries) => find_reference(entries, normalize_label(content.subrange(1, n - 1))),
                    None => None,
                }
            } else {
                None
            },
            None => None,
        }
    } else {
        None
    }
}

/// Parses `content` with the inline rules of `md`, adding the resulting
/// nodes as children of `root`. `mapping` gives document positions of
/// positions in `content`, and `references` the link reference
/// definitions.
pub fn parse_inline<'a>(
    md: &'a MarkdownIt,
    content: String,
    mapping: Vec<(usize, usize)>,
    root: Node,
    references: Option<&'a ReferenceMap>,
) -> (r: Node)
    requires
        children_are_parsed(root),
    ensures
        r.value == root.value,
        children_are_parsed(r),
        root.children@.len() == 0 && content@.len() == 0 ==> r.children@.len() == 0,
        root.children@.len() == 0 && content@.len() < usize::MAX / 4 ==> nodes_toks(r.children@) == inline_tokens(
            md.inline.rules@,
            entries_of(references),
            content@,
            mapping@,
        ),
        root.children@.len() == 0 && 0 < content@.len() && plain_content(md.inline.rules@, content@) ==> {
            &&& r.children@.len() == 1
            &&& r.children@[0].value matches NodeValue::Text { content: text } && text@ == content@
        },
        root.children@.len() == 0 ==> match shortcut_link_content(md.inline.rules@, entries_of(references), content@) {
            Some(d) => {
                &&& r.children@.len() == 1
                &&& r.children@[0].value matches NodeValue::Link { prefix, url, title } && prefix == '\0' && url
                    == Some(d.destination) && title == d.title
                &&& holds_label_text(r.children@[0], content@.subrange(1, content@.len() - 1))
                &&& r.children@[0].srcmap == map_range(mapping@, 0, byte_offset(content@, content@.len() as int) as int)
            },
            None => true,
        },
{
    let src = str_chars(content.as_str());
    let len = src.len();
    if len >= usize::MAX / 4 {
        return root;
    }
    proof {
        lemma_byte_offset_bound(src@, len as int);
    }
    let offsets = match byte_offsets(&src) {
        Some(o) => o,
        None => {
            return root;
        },
    };
    let mut state = InlineState {
        src,
        offsets,
        pos: 0,
        pos_max: len,
        md,
        node: root,
        link_level: 0,
        srcmap: mapping,
        inline_env: InlineEnv::new(),
        references,
    };
    let ghost st0 = state;
    proof {
        let rules = md.inline.rules@;
        if shortcut_link_content(rules, entries_of(references), content@) is Some {
            let i = first_starting_rule(rules, '[', 0).unwrap();
            lemma_first_starting_rule(rules, '[', 0);
            let en = rules[i]->Link_0.enable_nested;
            assert(st0.src@[0] == '[');
            assert(first_link_rule(st0) == Some((0usize, '\0', en)));
            assert forall|j: int| 1 <= j < len - 1 implies st0.src@[j] != ']' && !starts_token(
                rules,
                #[trigger] st0.src@[j],
            ) && !st0.inline_env.link_labels@.contains_key(j as usize) by {
                assert(st0.src@[j] == content@[j]);
            }
            lemma_plain_label_run(st0, 1, len - 1);
            assert(st0.src@.subrange(1, len - 1) == content@.subrange(1, len - 1));
            assert(link_found_at(st0, 0, en) == Some(len - 1));
        }
    }
    proof {
        if st0.node.children@.len() == 0 {
            assert(nodes_toks(st0.node.children@) == Seq::<Tok>::empty());
        }
        assert(st0.inline_env.link_labels@ == Map::<usize, (usize, bool, bool)>::empty());
        assert(crate::parser::inline::scan::ticks_model(st0.inline_env.backticks@) =~= Seq::<(char, bool, Seq<usize>)>::empty());
        assert(st0.src@ == content@);
    }
    tokenize(&mut state);
    proof {
        assert(state.src@.subrange(0, len as int) =~= content@);
        assert(st0.src@.take(0) =~= Seq::<char>::empty());
        assert(encode_utf8(Seq::<char>::empty()) =~= Seq::<u8>::empty());
        assert(byte_offset(st0.src@, 0) == 0);
    }
    state.node
}

} // verus!
