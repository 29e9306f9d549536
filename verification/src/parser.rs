//! The parser: its configuration of inline and core rules.
pub mod inline;
pub mod internals;

use vstd::prelude::*;
use vstd::utf8::encode_scalar;
use crate::generics::inline::full_link::{LinkPrefixScanner, LinkScanner, LinkScannerEnd};

verus! {

/// An inline rule registered with the parser.
#[derive(PartialEq, Eq, Structural)]
pub enum InlineRuleKind {
    /// `[label](href "title")` links.
    Link(LinkScanner),
    /// `P[label](href "title")` structures with the prefix `P`.
    LinkPrefix(LinkPrefixScanner),
    /// The rule that marks `]` as the end of a label.
    LinkEnd(LinkScannerEnd),
    /// Spans between runs of the given marker character.
    CodePair(char),
}

/// The inline rules, run in order at each position of inline content.
pub struct InlineParser {
    pub rules: Vec<InlineRuleKind>,
}

impl InlineParser {
    /// An inline parser without rules.
    pub fn new() -> (p: InlineParser)
        ensures
            p.rules@.len() == 0,
    {
        InlineParser { rules: Vec::new() }
    }

    /// Appends `rule` to the rules.
    pub fn add_rule(&mut self, rule: InlineRuleKind)
        ensures
            final(self).rules@ == old(self).rules@.push(rule),
    {
        self.rules.push(rule);
    }

    /// Whether `rule` is among the rules.
    pub fn has_rule(&self, rule: &InlineRuleKind) -> (r: bool)
        ensures
            r == self.rules@.contains(*rule),
    {
        let mut i: usize = 0;
        while i < self.rules.len()
            invariant
                i <= self.rules@.len(),
                forall|j: int| 0 <= j < i ==> self.rules@[j] != *rule,
            decreases self.rules@.len() - i,
        {
            if self.rules[i] == *rule {
                assert(self.rules@[i as int] == *rule);
                return true;
            }
            i = i + 1;
        }
        false
    }
}

/// A rule that runs on the whole document.
#[derive(PartialEq, Eq, Structural)]
pub enum CoreRuleKind {
    /// Splits the source into blocks.
    BlockParser,
    /// Parses the inline content of blocks.
    InlineParser,
}

/// Parser configuration: the inline rules and the core rules in the order
/// they run.
pub struct MarkdownIt {
    pub inline: InlineParser,
    pub core: Vec<CoreRuleKind>,
}

impl MarkdownIt {
    /// A parser without rules.
    pub fn new() -> (md: MarkdownIt)
        ensures
            md.inline.rules@.len() == 0,
            md.core@.len() == 0,
    {
        MarkdownIt { inline: InlineParser::new(), core: Vec::new() }
    }
}

/// Characters that link normalization leaves as they are: ASCII letters
/// and digits, and `;/?:@&=+$,-_.!~*'()#`.
pub open spec fn url_safe(c: char) -> bool {
    ||| ('a' <= c && c <= 'z')
    ||| ('A' <= c && c <= 'Z')
    ||| ('0' <= c && c <= '9')
    ||| c == ';' || c == '/' || c == '?' || c == ':' || c == '@' || c == '&' || c == '='
    ||| c == '+' || c == '$' || c == ',' || c == '-' || c == '_' || c == '.' || c == '!'
    ||| c == '~' || c == '*' || c == '\'' || c == '(' || c == ')' || c == '#'
}

/// An ASCII hexadecimal digit, in either case.
pub open spec fn is_ascii_hex(c: char) -> bool {
    ('0' <= c && c <= '9') || ('a' <= c && c <= 'f') || ('A' <= c && c <= 'F')
}

/// The uppercase hexadecimal digit of `n`, for `0 <= n < 16`.
pub open spec fn hex_upper(n: int) -> char {
    if n < 10 {
        (('0' as int) + n) as char
    } else {
        (('A' as int) + n - 10) as char
    }
}

/// Each byte of `b` written as `%` and two uppercase hexadecimal digits.
pub open spec fn percent_bytes(b: Seq<u8>) -> Seq<char>
    decreases b.len(),
{
    if b.len() == 0 {
        seq![]
    } else {
        seq!['%', hex_upper((b[0] as int) / 16), hex_upper((b[0] as int) % 16)] + percent_bytes(b.drop_first())
    }
}

/// `s` percent-encoded for use as a link: characters that are not
/// [url_safe] are replaced by their UTF-8 bytes written as `%XX`, except
/// a `%` that starts an escape `%XX` already, which is kept.
pub open spec fn percent_encoded(s: Seq<char>) -> Seq<char>
    decreases s.len(),
{
    if s.len() == 0 {
        seq![]
    } else if s[0] == '%' && s.len() >= 3 && is_ascii_hex(s[1]) && is_ascii_hex(s[2]) {
        s.take(3) + percent_encoded(s.skip(3))
    } else if url_safe(s[0]) {
        seq![s[0]] + percent_encoded(s.skip(1))
    } else {
        percent_bytes(encode_scalar(s[0] as u32)) + percent_encoded(s.skip(1))
    }
}

/// `mdurl::urlencode::encode` with `ENCODE_DEFAULT_CHARS` and escapes kept:
/// every byte of `url` that is not an ASCII letter, digit or one of
/// `;/?:@&=+$,-_.!~*'()#` becomes `%XX` (uppercase hexadecimal), except a
/// `%` followed by two hexadecimal digits, which is kept with them.
#[verifier::external_body]
fn percent_encode(url: &str) -> (r: String)
    ensures
        r@ == percent_encoded(url@),
{
    mdurl::urlencode::encode(url, mdurl::urlencode::ENCODE_DEFAULT_CHARS, true).into_owned()
}

/// Normalizes the destination of a link: percent-encodes it (see
/// [percent_encoded]).
pub fn normalize_link(url: &str) -> (r: String)
    ensures
        r@ == percent_encoded(url@),
{
    percent_encode(url)
}

/// `c` equals `p` up to ASCII case, where `p` is lowercase.
pub open spec fn ascii_ci_eq(c: char, p: char) -> bool {
    c == p || ('a' <= p && p <= 'z' && c as u32 == p as u32 - 32)
}

/// `s` starts with `p`, ASCII letters compared without case.
pub open spec fn starts_with_ci(s: Seq<char>, p: Seq<char>) -> bool {
    s.len() >= p.len() && forall|i: int| 0 <= i < p.len() ==> ascii_ci_eq(#[trigger] s[i], p[i])
}

/// URL schemes that are refused.
pub open spec fn bad_scheme(i: int) -> Seq<char> {
    if i == 0 {
        seq!['v', 'b', 's', 'c', 'r', 'i', 'p', 't', ':']
    } else if i == 1 {
        seq!['j', 'a', 'v', 'a', 's', 'c', 'r', 'i', 'p', 't', ':']
    } else if i == 2 {
        seq!['f', 'i', 'l', 'e', ':']
    } else {
        seq!['d', 'a', 't', 'a', ':']
    }
}

/// `data:` URLs that are accepted: images in a few formats.
pub open spec fn good_data(i: int) -> Seq<char> {
    if i == 0 {
        seq!['d', 'a', 't', 'a', ':', 'i', 'm', 'a', 'g', 'e', '/', 'g', 'i', 'f', ';']
    } else if i == 1 {
        seq!['d', 'a', 't', 'a', ':', 'i', 'm', 'a', 'g', 'e', '/', 'p', 'n', 'g', ';']
    } else if i == 2 {
        seq!['d', 'a', 't', 'a', ':', 'i', 'm', 'a', 'g', 'e', '/', 'j', 'p', 'e', 'g', ';']
    } else {
        seq!['d', 'a', 't', 'a', ':', 'i', 'm', 'a', 'g', 'e', '/', 'w', 'e', 'b', 'p', ';']
    }
}

/// A link is accepted unless it uses the `vbscript:`, `javascript:`,
/// `file:` or `data:` scheme, `data:` images in GIF, PNG, JPEG or WebP
/// excepted.
pub open spec fn link_is_valid(url: Seq<char>) -> bool {
    (forall|i: int| 0 <= i < 4 ==> !starts_with_ci(url, #[trigger] bad_scheme(i)))
        || (exists|i: int| 0 <= i < 4 && starts_with_ci(url, #[trigger] good_data(i)))
}

fn starts_with_ci_exec(s: &Vec<char>, p: &[char]) -> (r: bool)
    ensures
        r == starts_with_ci(s@, p@),
{
    if s.len() < p.len() {
        return false;
    }
    let mut i: usize = 0;
    while i < p.len()
        invariant
            i <= p@.len() <= s@.len(),
            forall|j: int| 0 <= j < i ==> ascii_ci_eq(#[trigger] s@[j], p@[j]),
        decreases p@.len() - i,
    {
        let c = s[i];
        let q = p[i];
        if !(c == q || ('a' <= q && q <= 'z' && c as u32 == q as u32 - 32)) {
            return false;
        }
        i = i + 1;
    }
    true
}

/// Whether the link `url` is accepted (see [link_is_valid]).
pub fn validate_link(url: &Vec<char>) -> (r: bool)
    ensures
        r == link_is_valid(url@),
{
    let b0 = starts_with_ci_exec(url, &['v', 'b', 's', 'c', 'r', 'i', 'p', 't', ':']);
    let b1 = starts_with_ci_exec(url, &['j', 'a', 'v', 'a', 's', 'c', 'r', 'i', 'p', 't', ':']);
    let b2 = starts_with_ci_exec(url, &['f', 'i', 'l', 'e', ':']);
    let b3 = starts_with_ci_exec(url, &['d', 'a', 't', 'a', ':']);
    let g0 = starts_with_ci_exec(url, &['d', 'a', 't', 'a', ':', 'i', 'm', 'a', 'g', 'e', '/', 'g', 'i', 'f', ';']);
    let g1 = starts_with_ci_exec(url, &['d', 'a', 't', 'a', ':', 'i', 'm', 'a', 'g', 'e', '/', 'p', 'n', 'g', ';']);
    let g2 = starts_with_ci_exec(url, &['d', 'a', 't', 'a', ':', 'i', 'm', 'a', 'g', 'e', '/', 'j', 'p', 'e', 'g', ';']);
    let g3 = starts_with_ci_exec(url, &['d', 'a', 't', 'a', ':', 'i', 'm', 'a', 'g', 'e', '/', 'w', 'e', 'b', 'p', ';']);
    assert(b0 == starts_with_ci(url@, bad_scheme(0)));
    assert(b1 == starts_with_ci(url@, bad_scheme(1)));
    assert(b2 == starts_with_ci(url@, bad_scheme(2)));
    assert(b3 == starts_with_ci(url@, bad_scheme(3)));
    assert(g0 == starts_with_ci(url@, good_data(0)));
    assert(g1 == starts_with_ci(url@, good_data(1)));
    assert(g2 == starts_with_ci(url@, good_data(2)));
    assert(g3 == starts_with_ci(url@, good_data(3)));
    let bad = b0 || b1 || b2 || b3;
    let good = g0 || g1 || g2 || g3;
    if bad {
        assert(!(forall|i: int| 0 <= i < 4 ==> !starts_with_ci(url@, #[trigger] bad_scheme(i))));
    } else {
        assert forall|i: int| 0 <= i < 4 implies !starts_with_ci(url@, #[trigger] bad_scheme(i)) by {
            assert(i == 0 || i == 1 || i == 2 || i == 3);
        }
    }
    if !good {
        assert forall|i: int| 0 <= i < 4 implies !starts_with_ci(url@, #[trigger] good_data(i)) by {
            assert(i == 0 || i == 1 || i == 2 || i == 3);
        }
    }
    !bad || good
}

} // verus!
