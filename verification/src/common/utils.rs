//! Character-level helpers shared by the inline rules: UTF-8 widths,
//! byte offsets of character positions, string building and the
//! unescaping of backslash escapes and character references.
use vstd::prelude::*;
use vstd::utf8::*;
use crate::common::html_entities::{match_named_reference, named_reference};

verus! {

/// `String::push` appends one character to the end of the string.
pub assume_specification[ String::push ](s: &mut String, ch: char)
    ensures
        final(s)@ == old(s)@.push(ch),
;

/// `char::from_u32` returns the character with the given code point when
/// it is a Unicode scalar value, and `None` otherwise.
pub assume_specification[ core::char::from_u32 ](i: u32) -> (r: Option<char>)
    ensures
        r is Some <==> is_scalar(i),
        r matches Some(c) ==> c as u32 == i,
;

/// Number of bytes in the UTF-8 encoding of `c`.
pub open spec fn utf8_width(c: char) -> nat {
    encode_scalar(c as u32).len()
}

/// Byte offset of the character position `k` in `s`: the length of the
/// UTF-8 encoding of the first `k` characters.
pub open spec fn byte_offset(s: Seq<char>, k: int) -> nat {
    encode_utf8(s.take(k)).len()
}

/// `b` is the byte offset of a character boundary of `s`.
pub open spec fn is_char_offset(s: Seq<char>, b: int) -> bool {
    exists|k: int| 0 <= k <= s.len() && #[trigger] byte_offset(s, k) == b
}

/// The character position whose byte offset is `b`.
pub open spec fn char_index_of(s: Seq<char>, b: int) -> int {
    choose|k: int| 0 <= k <= s.len() && #[trigger] byte_offset(s, k) == b
}

/// Encoding a character more appends its encoding.
pub proof fn lemma_encode_utf8_push(a: Seq<char>, c: char)
    ensures
        encode_utf8(a.push(c)) == encode_utf8(a) + encode_scalar(c as u32),
    decreases a.len(),
{
    if a.len() == 0 {
        assert(a.push(c).drop_first() =~= Seq::<char>::empty());
        assert(a.push(c)[0] == c);
        assert(encode_utf8(Seq::<char>::empty()) =~= Seq::<u8>::empty());
        assert(encode_utf8(a) =~= Seq::<u8>::empty());
        assert(encode_utf8(a.push(c)) =~= encode_scalar(c as u32) + encode_utf8(a.push(c).drop_first()));
        assert(encode_utf8(a.push(c)) =~= encode_utf8(a) + encode_scalar(c as u32));
    } else {
        assert(a.push(c).drop_first() =~= a.drop_first().push(c));
        lemma_encode_utf8_push(a.drop_first(), c);
        assert(encode_utf8(a.push(c)) =~= encode_utf8(a) + encode_scalar(c as u32));
    }
}

/// Every character takes one to four bytes.
pub proof fn lemma_utf8_width_pos(c: char)
    ensures
        1 <= utf8_width(c) <= 4,
{
}

/// Byte offsets grow by the width of each character.
pub proof fn lemma_byte_offset_step(s: Seq<char>, k: int)
    requires
        0 <= k < s.len(),
    ensures
        byte_offset(s, k + 1) == byte_offset(s, k) + utf8_width(s[k]),
{
    assert(s.take(k + 1) =~= s.take(k).push(s[k]));
    lemma_encode_utf8_push(s.take(k), s[k]);
}

/// Byte offsets are strictly increasing in the character position.
pub proof fn lemma_byte_offset_mono(s: Seq<char>, i: int, j: int)
    requires
        0 <= i <= j <= s.len(),
    ensures
        byte_offset(s, i) + (j - i) <= byte_offset(s, j),
    decreases j - i,
{
    if i < j {
        lemma_byte_offset_step(s, j - 1);
        lemma_utf8_width_pos(s[j - 1]);
        lemma_byte_offset_mono(s, i, j - 1);
    }
}

/// The first `k` characters take at most four bytes each.
pub proof fn lemma_byte_offset_bound(s: Seq<char>, k: int)
    requires
        0 <= k <= s.len(),
    ensures
        byte_offset(s, k) <= 4 * k,
    decreases k,
{
    if k > 0 {
        lemma_byte_offset_step(s, k - 1);
        lemma_utf8_width_pos(s[k - 1]);
        lemma_byte_offset_bound(s, k - 1);
    } else {
        assert(s.take(0) =~= Seq::<char>::empty());
        assert(encode_utf8(Seq::<char>::empty()) =~= Seq::<u8>::empty());
    }
}

/// A character boundary has exactly one character position.
pub proof fn lemma_char_index_of(s: Seq<char>, b: int)
    requires
        is_char_offset(s, b),
    ensures
        0 <= char_index_of(s, b) <= s.len(),
        byte_offset(s, char_index_of(s, b)) == b,
        forall|k: int| 0 <= k <= s.len() && #[trigger] byte_offset(s, k) == b ==> k == char_index_of(s, b),
{
    let k0 = char_index_of(s, b);
    assert forall|k: int| 0 <= k <= s.len() && #[trigger] byte_offset(s, k) == b implies k == k0 by {
        if k < k0 {
            lemma_byte_offset_mono(s, k, k0);
        } else if k0 < k {
            lemma_byte_offset_mono(s, k0, k);
        }
    }
}

/// Number of bytes in the UTF-8 encoding of `c`.
pub fn char_len_utf8(c: char) -> (n: usize)
    ensures
        n == utf8_width(c),
        1 <= n <= 4,
{
    proof {
        char_is_scalar(c);
    }
    let v = c as u32;
    if v <= 0x7f {
        1
    } else if v <= 0x7ff {
        2
    } else if v <= 0xffff {
        3
    } else {
        4
    }
}

/// The characters of `s`, in order.
pub fn str_chars(s: &str) -> (v: Vec<char>)
    ensures
        v@ == s@,
{
    let n = s.unicode_len();
    let mut v: Vec<char> = Vec::with_capacity(n);
    let mut i: usize = 0;
    while i < n
        invariant
            n == s@.len(),
            i <= n,
            v@ == s@.take(i as int),
        decreases n - i,
    {
        let c = s.get_char(i);
        v.push(c);
        i = i + 1;
        assert(v@ =~= s@.take(i as int));
    }
    assert(v@ =~= s@);
    v
}

/// The characters `v[start..end]` as a `String`.
pub fn string_of_range(v: &Vec<char>, start: usize, end: usize) -> (s: String)
    requires
        start <= end <= v.len(),
    ensures
        s@ == v@.subrange(start as int, end as int),
{
    let mut s = String::new();
    let mut i = start;
    while i < end
        invariant
            start <= i <= end <= v.len(),
            s@ == v@.subrange(start as int, i as int),
        decreases end - i,
    {
        s.push(v[i]);
        i = i + 1;
        assert(s@ =~= v@.subrange(start as int, i as int));
    }
    s
}

/// Character position of the byte offset `b` in `v`, found by walking the
/// characters and adding up their widths.
pub fn char_index_for_offset(v: &Vec<char>, b: usize) -> (k: usize)
    requires
        is_char_offset(v@, b as int),
    ensures
        k as int == char_index_of(v@, b as int),
        k <= v.len(),
{
    proof {
        lemma_char_index_of(v@, b as int);
    }
    let ghost k0 = char_index_of(v@, b as int);
    let mut k: usize = 0;
    let mut off: usize = 0;
    while off < b
        invariant
            0 <= k <= k0,
            k0 <= v.len(),
            byte_offset(v@, k0 as int) == b,
            off == byte_offset(v@, k as int),
        decreases k0 - k,
    {
        assert(k < k0);
        proof {
            lemma_byte_offset_step(v@, k as int);
            lemma_byte_offset_mono(v@, k as int + 1, k0 as int);
        }
        off = off + char_len_utf8(v[k]);
        k = k + 1;
    }
    proof {
        if k < k0 {
            lemma_byte_offset_mono(v@, k as int + 1, k0 as int);
            lemma_byte_offset_step(v@, k as int);
        }
    }
    k
}

/// Byte offset `base + byte_offset(v[from..to])`, computed from the widths
/// of the characters.
pub fn advance_offset(v: &Vec<char>, from: usize, to: usize, base: usize) -> (b: usize)
    requires
        from <= to <= v.len(),
        base == byte_offset(v@, from as int),
        byte_offset(v@, to as int) <= usize::MAX,
    ensures
        b == byte_offset(v@, to as int),
{
    let mut b = base;
    let mut k = from;
    while k < to
        invariant
            from <= k <= to <= v.len(),
            b == byte_offset(v@, k as int),
            byte_offset(v@, to as int) <= usize::MAX,
        decreases to - k,
    {
        proof {
            lemma_byte_offset_step(v@, k as int);
            lemma_byte_offset_mono(v@, k as int + 1, to as int);
        }
        b = b + char_len_utf8(v[k]);
        k = k + 1;
    }
    b
}

/// ASCII punctuation: the characters that a backslash escapes.
pub open spec fn is_escapable(c: char) -> bool {
    ||| ('!' <= c && c <= '/')
    ||| (':' <= c && c <= '@')
    ||| ('[' <= c && c <= '`')
    ||| ('{' <= c && c <= '~')
}

/// Whether a backslash escapes `c` (see [is_escapable]).
pub fn escapable(c: char) -> (r: bool)
    ensures
        r == is_escapable(c),
{
    ('!' <= c && c <= '/') || (':' <= c && c <= '@') || ('[' <= c && c <= '`') || ('{' <= c
        && c <= '~')
}

/// A digit of the given radix (10, or 16 when `hex`).
pub open spec fn is_digit(c: char, hex: bool) -> bool {
    ||| ('0' <= c && c <= '9')
    ||| (hex && 'a' <= c && c <= 'f')
    ||| (hex && 'A' <= c && c <= 'F')
}

pub open spec fn digit_value(c: char) -> nat {
    if '0' <= c && c <= '9' {
        (c as nat - '0' as nat) as nat
    } else if 'a' <= c && c <= 'f' {
        (c as nat - 'a' as nat + 10) as nat
    } else {
        (c as nat - 'A' as nat + 10) as nat
    }
}

pub open spec fn radix(hex: bool) -> nat {
    if hex {
        16
    } else {
        10
    }
}

/// Length of the run of digits that starts at `i`.
pub open spec fn digit_run(s: Seq<char>, i: int, hex: bool) -> nat
    decreases s.len() - i,
{
    if 0 <= i < s.len() && is_digit(s[i], hex) {
        1 + digit_run(s, i + 1, hex)
    } else {
        0
    }
}

/// Value of the `n` digits starting at `i`.
pub open spec fn digits_value(s: Seq<char>, i: int, n: nat, hex: bool) -> nat
    decreases n,
{
    if n == 0 {
        0
    } else {
        digits_value(s, i, (n - 1) as nat, hex) * radix(hex) + digit_value(s[i + n - 1])
    }
}

pub open spec fn pow_radix(hex: bool, n: nat) -> nat
    decreases n,
{
    if n == 0 {
        1
    } else {
        pow_radix(hex, (n - 1) as nat) * radix(hex)
    }
}

/// Code points that a numeric character reference may produce: no
/// surrogates, non-characters, most control characters, or values beyond
/// the Unicode range.
pub open spec fn valid_entity_code(c: nat) -> bool {
    &&& !(0xD800 <= c && c <= 0xDFFF)
    &&& !(0xFDD0 <= c && c <= 0xFDEF)
    &&& c % 0x10000 != 0xFFFF
    &&& c % 0x10000 != 0xFFFE
    &&& c > 8
    &&& c != 0x0B
    &&& !(0x0E <= c && c <= 0x1F)
    &&& !(0x7F <= c && c <= 0x9F)
    &&& c <= 0x10FFFF
}

/// A numeric character reference (`&#NNN;` or `&#xHHH;`, one to eight
/// digits) at the start of `s`: its character and its length in `s`.
pub open spec fn char_reference(s: Seq<char>) -> Option<(char, int)> {
    if s.len() >= 3 && s[0] == '&' && s[1] == '#' {
        let hex = s[2] == 'x' || s[2] == 'X';
        let d: int = if hex {
            3
        } else {
            2
        };
        let n = digit_run(s, d, hex);
        if 1 <= n && n <= 8 && d + n < s.len() && s[d + n] == ';' {
            let code = digits_value(s, d, n, hex);
            if valid_entity_code(code) {
                Some(((code as u32) as char, d + n + 1))
            } else {
                None
            }
        } else {
            None
        }
    } else {
        None
    }
}

/// `s` with backslash escapes of ASCII punctuation replaced by the escaped
/// character, valid numeric character references replaced by the
/// character they denote and named character references of the entity
/// table replaced by their characters; everything else is kept.
pub open spec fn unescape_spec(s: Seq<char>) -> Seq<char>
    decreases s.len(),
{
    if s.len() == 0 {
        seq![]
    } else if s[0] == '\\' && s.len() >= 2 && is_escapable(s[1]) {
        seq![s[1]] + unescape_spec(s.skip(2))
    } else if let Some((c, n)) = char_reference(s) {
        if 0 < n <= s.len() {
            seq![c] + unescape_spec(s.skip(n))
        } else {
            seq![s[0]] + unescape_spec(s.skip(1))
        }
    } else if let Some((c, n)) = named_reference(s) {
        if 0 < n <= s.len() {
            c + unescape_spec(s.skip(n))
        } else {
            seq![s[0]] + unescape_spec(s.skip(1))
        }
    } else {
        seq![s[0]] + unescape_spec(s.skip(1))
    }
}

fn digit_of(c: char, hex: bool) -> (r: Option<u64>)
    ensures
        r is Some <==> is_digit(c, hex),
        r matches Some(d) ==> d == digit_value(c) && d < radix(hex),
{
    if '0' <= c && c <= '9' {
        Some((c as u32 - '0' as u32) as u64)
    } else if hex && 'a' <= c && c <= 'f' {
        Some((c as u32 - 'a' as u32 + 10) as u64)
    } else if hex && 'A' <= c && c <= 'F' {
        Some((c as u32 - 'A' as u32 + 10) as u64)
    } else {
        None
    }
}

proof fn lemma_pow_radix_bound(hex: bool, n: nat)
    requires
        n <= 8,
    ensures
        1 <= pow_radix(hex, n) <= 0x1_0000_0000,
{
    reveal_with_fuel(pow_radix, 9);
    if hex {
        assert(pow_radix(true, 8) == 0x1_0000_0000);
    } else {
        assert(pow_radix(false, 8) == 100_000_000);
    }
    assert(n == 0 || n == 1 || n == 2 || n == 3 || n == 4 || n == 5 || n == 6 || n == 7 || n == 8);
}

/// Recognises a numeric character reference at `v[i..end]`.
fn match_char_reference(v: &Vec<char>, i: usize, end: usize) -> (r: Option<(char, usize)>)
    requires
        i < end <= v.len(),
    ensures
        match r {
            Some((c, n)) => char_reference(v@.subrange(i as int, end as int)) == Some((c, n as int)),
            None => char_reference(v@.subrange(i as int, end as int)) is None,
        },
{
    let ghost s = v@.subrange(i as int, end as int);
    if !(end - i >= 3 && v[i] == '&' && v[i + 1] == '#') {
        return None;
    }
    let hex = v[i + 2] == 'x' || v[i + 2] == 'X';
    let d: usize = if hex {
        3
    } else {
        2
    };
    let base = i + d;
    let mut n: usize = 0;
    let mut value: u64 = 0;
    loop
        invariant_except_break
            s == v@.subrange(i as int, end as int),
            i < end <= v.len(),
            d == 2 || d == 3,
            d == 3 <==> hex,
            base == i + d,
            base <= end,
            n <= 9,
            n <= end - base,
            digit_run(s, d as int, hex) == n + digit_run(s, (d + n) as int, hex),
            n <= 8 ==> value == digits_value(s, d as int, n as nat, hex),
            n <= 8 ==> value < pow_radix(hex, n as nat),
        ensures
            n <= 9,
            n <= end - base,
            digit_run(s, d as int, hex) == n + digit_run(s, (d + n) as int, hex),
            n <= 8 ==> value == digits_value(s, d as int, n as nat, hex),
            n <= 8 ==> digit_run(s, (d + n) as int, hex) == 0,
        decreases end - base - n,
    {
        if n >= end - base || n > 8 {
            break ;
        }
        match digit_of(v[base + n], hex) {
            Some(dv) => {
                assert(s[(d + n) as int] == v[(base + n) as int]);
                if n < 8 {
                    proof {
                        lemma_pow_radix_bound(hex, (n + 1) as nat);
                        lemma_pow_radix_bound(hex, n as nat);
                        let p = pow_radix(hex, n as nat);
                        let r = radix(hex);
                        assert(pow_radix(hex, (n + 1) as nat) == p * r);
                        assert(value * r + dv < p * r) by (nonlinear_arith)
                            requires
                                value < p,
                                dv < r,
                                r > 0,
                        ;
                    }
                    value = value * (if hex {
                        16
                    } else {
                        10
                    }) + dv;
                }
                n = n + 1;
            },
            None => {
                assert(s[(d + n) as int] == v[(base + n) as int]);
                break ;
            },
        }
    }
    if n >= 1 && n <= 8 && n < end - base && v[base + n] == ';' {
        assert(s[(d + n) as int] == v[(base + n) as int]);
        proof {
            lemma_pow_radix_bound(hex, n as nat);
        }
        if valid_code(value) {
            match core::char::from_u32(value as u32) {
                Some(c) => {
                    proof {
                        char_u32_cast(c, value as u32);
                    }
                    Some((c, d + n + 1))
                },
                None => None,
            }
        } else {
            None
        }
    } else {
        None
    }
}

fn valid_code(c: u64) -> (r: bool)
    ensures
        r == valid_entity_code(c as nat),
{
    !(0xD800 <= c && c <= 0xDFFF) && !(0xFDD0 <= c && c <= 0xFDEF) && c % 0x10000 != 0xFFFF && c
        % 0x10000 != 0xFFFE && c > 8 && c != 0x0B && !(0x0E <= c && c <= 0x1F) && !(0x7F <= c && c
        <= 0x9F) && c <= 0x10FFFF
}

/// Text without backslashes and ampersands is left as it is.
pub proof fn lemma_unescape_plain(s: Seq<char>)
    requires
        forall|i: int| 0 <= i < s.len() ==> #[trigger] s[i] != '\\' && s[i] != '&',
    ensures
        unescape_spec(s) == s,
    decreases s.len(),
{
    if s.len() > 0 {
        let t = s.skip(1);
        assert forall|i: int| 0 <= i < t.len() implies #[trigger] t[i] != '\\' && t[i] != '&' by {
            assert(t[i] == s[i + 1]);
        }
        lemma_unescape_plain(t);
        assert(s =~= seq![s[0]] + t);
    }
}

/// The characters `v[start..end]` with escapes and character references
/// resolved, as a `String`.
pub fn unescape_range(v: &Vec<char>, start: usize, end: usize) -> (r: String)
    requires
        start <= end <= v.len(),
    ensures
        r@ == unescape_spec(v@.subrange(start as int, end as int)),
{
    let mut out = String::new();
    let mut i = start;
    while i < end
        invariant
            start <= i <= end <= v.len(),
            out@ + unescape_spec(v@.subrange(i as int, end as int)) == unescape_spec(
                v@.subrange(start as int, end as int),
            ),
        decreases end - i,
    {
        let ghost s = v@.subrange(i as int, end as int);
        if v[i] == '\\' && i + 1 < end && escapable(v[i + 1]) {
            assert(s.skip(2) =~= v@.subrange(i + 2, end as int));
            out.push(v[i + 1]);
            i = i + 2;
        } else {
            match match_char_reference(v, i, end) {
                Some((c, n)) => {
                    assert(s.skip(n as int) =~= v@.subrange(i + n, end as int));
                    out.push(c);
                    i = i + n;
                },
                None => match match_named_reference(v, i, end) {
                    Some((c, n)) => {
                        assert(s.skip(n as int) =~= v@.subrange(i + n, end as int));
                        let ghost before = out@;
                        let mut k: usize = 0;
                        while k < c.len()
                            invariant
                                k <= c@.len(),
                                out@ == before + c@.take(k as int),
                            decreases c@.len() - k,
                        {
                            out.push(c[k]);
                            k = k + 1;
                            assert(out@ =~= before + c@.take(k as int));
                        }
                        assert(c@.take(c@.len() as int) =~= c@);
                        i = i + n;
                    },
                    None => {
                        assert(s.skip(1) =~= v@.subrange(i + 1, end as int));
                        out.push(v[i]);
                        i = i + 1;
                    },
                },
            }
        }
        assert(out@ + unescape_spec(v@.subrange(i as int, end as int)) =~= unescape_spec(
            v@.subrange(start as int, end as int),
        ));
    }
    assert(v@.subrange(i as int, end as int) =~= Seq::<char>::empty());
    assert(out@ =~= unescape_spec(v@.subrange(start as int, end as int)));
    out
}

/// `s` with backslash escapes of ASCII punctuation and character
/// references resolved (see [unescape_spec]).
pub fn unescape_all(s: &str) -> (r: String)
    ensures
        r@ == unescape_spec(s@),
{
    let v = str_chars(s);
    assert(v@.subrange(0, v.len() as int) =~= s@);
    unescape_range(&v, 0, v.len())
}

} // verus!
