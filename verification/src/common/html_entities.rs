//! Named character references (`&amp;`, `&copy;`, ...), looked up in the
//! table of HTML entities of the `entities` crate.
use vstd::prelude::*;
use crate::common::utils::str_chars;

verus! {

/// Number of entries of the HTML entity table.
pub open spec fn entity_count() -> int {
    2231
}

/// Entry `i` of the HTML entity table: the entity as written (`&name;`, or
/// `&name` for the legacy entities without a semicolon) and the characters
/// it stands for.
pub uninterp spec fn entity_entry(i: int) -> (Seq<char>, Seq<char>);

/// The length of `entities::ENTITIES`, a static array of 2231 entries.
#[verifier::external_body]
fn entity_table_len() -> (n: usize)
    ensures
        n == entity_count(),
{
    entities::ENTITIES.len()
}

/// Entry `i` of `entities::ENTITIES`: its `entity` and `characters` fields.
#[verifier::external_body]
fn entity_at(i: usize) -> (r: (&'static str, &'static str))
    requires
        i < entity_count(),
    ensures
        r.0@ == entity_entry(i as int).0,
        r.1@ == entity_entry(i as int).1,
{
    let e = &entities::ENTITIES[i];
    (e.entity, e.characters)
}

/// The characters of the first entry at or after `i` written as `key`.
pub open spec fn find_entity(key: Seq<char>, i: int) -> Option<Seq<char>>
    decreases entity_count() - i,
{
    if i < 0 || i >= entity_count() {
        None
    } else if entity_entry(i).0 == key {
        Some(entity_entry(i).1)
    } else {
        find_entity(key, i + 1)
    }
}

/// An ASCII letter.
pub open spec fn is_ascii_letter(c: char) -> bool {
    ('a' <= c && c <= 'z') || ('A' <= c && c <= 'Z')
}

/// An ASCII letter or digit.
pub open spec fn is_ascii_alnum(c: char) -> bool {
    is_ascii_letter(c) || ('0' <= c && c <= '9')
}

/// Length of the run of ASCII letters and digits that starts at `i`.
pub open spec fn alnum_run(s: Seq<char>, i: int) -> nat
    decreases s.len() - i,
{
    if 0 <= i < s.len() && is_ascii_alnum(s[i]) {
        1 + alnum_run(s, i + 1)
    } else {
        0
    }
}

/// A named character reference `&name;` at the start of `s`, where the
/// name is an ASCII letter followed by one to 31 ASCII letters or digits
/// and `&name;` is in the entity table: the characters it stands for and
/// its length in `s`.
pub open spec fn named_reference(s: Seq<char>) -> Option<(Seq<char>, int)> {
    if s.len() >= 4 && s[0] == '&' && is_ascii_letter(s[1]) {
        let run: int = alnum_run(s, 2) as int;
        if 1 <= run && run <= 31 && 2 + run < s.len() && s[2 + run] == ';' {
            match find_entity(s.subrange(0, 3 + run), 0) {
                Some(c) => Some((c, 3 + run)),
                None => None,
            }
        } else {
            None
        }
    } else {
        None
    }
}

fn ascii_alnum(c: char) -> (r: bool)
    ensures
        r == is_ascii_alnum(c),
{
    ('a' <= c && c <= 'z') || ('A' <= c && c <= 'Z') || ('0' <= c && c <= '9')
}

/// Whether the characters of `s` are `v[start..end]`.
fn str_equals_range(s: &str, v: &Vec<char>, start: usize, end: usize) -> (r: bool)
    requires
        start <= end <= v.len(),
    ensures
        r == (s@ == v@.subrange(start as int, end as int)),
{
    let n = s.unicode_len();
    if n != end - start {
        assert(s@.len() != v@.subrange(start as int, end as int).len());
        return false;
    }
    let mut i: usize = 0;
    while i < n
        invariant
            n == s@.len(),
            n == end - start,
            start <= end <= v.len(),
            i <= n,
            forall|j: int| 0 <= j < i ==> s@[j] == v@[start + j],
        decreases n - i,
    {
        if s.get_char(i) != v[start + i] {
            assert(s@[i as int] != v@.subrange(start as int, end as int)[i as int]);
            return false;
        }
        i = i + 1;
    }
    assert(s@ =~= v@.subrange(start as int, end as int));
    true
}

/// The characters of the table entry written as `v[start..end]`.
fn lookup_entity(v: &Vec<char>, start: usize, end: usize) -> (r: Option<Vec<char>>)
    requires
        start <= end <= v.len(),
    ensures
        match find_entity(v@.subrange(start as int, end as int), 0) {
            Some(c) => r matches Some(x) && x@ == c,
            None => r is None,
        },
{
    let ghost key = v@.subrange(start as int, end as int);
    let n = entity_table_len();
    let mut j: usize = 0;
    while j < n
        invariant
            n == entity_count(),
            j <= n,
            start <= end <= v.len(),
            key == v@.subrange(start as int, end as int),
            find_entity(key, 0) == find_entity(key, j as int),
        decreases n - j,
    {
        let (name, chars) = entity_at(j);
        if str_equals_range(name, v, start, end) {
            return Some(str_chars(chars));
        }
        j = j + 1;
    }
    None
}

/// Recognises a named character reference at `v[i..end]`.
pub fn match_named_reference(v: &Vec<char>, i: usize, end: usize) -> (r: Option<(Vec<char>, usize)>)
    requires
        i < end <= v.len(),
    ensures
        match named_reference(v@.subrange(i as int, end as int)) {
            Some((c, n)) => r matches Some((x, m)) && x@ == c && m == n,
            None => r is None,
        },
{
    let ghost s = v@.subrange(i as int, end as int);
    if !(end - i >= 4 && v[i] == '&' && ((v[i + 1] >= 'a' && v[i + 1] <= 'z') || (v[i + 1] >= 'A'
        && v[i + 1] <= 'Z'))) {
        return None;
    }
    assert(s[0] == v@[i as int] && s[1] == v@[i + 1]);
    let mut run: usize = 0;
    while i + 2 + run < end && ascii_alnum(v[i + 2 + run])
        invariant
            s == v@.subrange(i as int, end as int),
            i + 2 + run <= end <= v.len(),
            alnum_run(s, 2) == run + alnum_run(s, 2 + run),
        decreases end - i - run,
    {
        assert(s[2 + run] == v@[i + 2 + run]);
        run = run + 1;
    }
    if i + 2 + run < end {
        assert(s[2 + run] == v@[i + 2 + run]);
    }
    assert(alnum_run(s, 2 + run) == 0);
    if !(1 <= run && run <= 31 && i + 2 + run < end && v[i + 2 + run] == ';') {
        return None;
    }
    assert(s.subrange(0, 3 + run) =~= v@.subrange(i as int, i + 3 + run));
    match lookup_entity(v, i, i + 3 + run) {
        Some(c) => Some((c, 3 + run)),
        None => None,
    }
}

} // verus!
