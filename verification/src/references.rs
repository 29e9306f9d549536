//! Link reference definitions, looked up by their normalized label.
use vstd::prelude::*;

verus! {

/// Whether `c` has the Unicode `White_Space` property (PropList.txt):
/// tab to carriage return, space, next line, no-break space, ogham space
/// mark, the spaces from en quad to hair space, line and paragraph
/// separators, narrow no-break space, medium mathematical space and
/// ideographic space.
pub open spec fn unicode_whitespace(c: char) -> bool {
    let u = c as u32;
    ||| 0x09 <= u <= 0x0D
    ||| u == 0x20
    ||| u == 0x85
    ||| u == 0xA0
    ||| u == 0x1680
    ||| 0x2000 <= u <= 0x200A
    ||| u == 0x2028
    ||| u == 0x2029
    ||| u == 0x202F
    ||| u == 0x205F
    ||| u == 0x3000
}

/// The lowercase mapping of `s` defined by Unicode.
pub uninterp spec fn unicode_lowercase(s: Seq<char>) -> Seq<char>;

/// The uppercase mapping of `s` defined by Unicode.
pub uninterp spec fn unicode_uppercase(s: Seq<char>) -> Seq<char>;

/// `char::is_whitespace` tells whether the character has the Unicode
/// `White_Space` property.
pub assume_specification[ char::is_whitespace ](c: char) -> (r: bool)
    ensures
        r == unicode_whitespace(c),
;

/// `str::to_lowercase` returns the Unicode lowercase mapping of the string.
pub assume_specification[ str::to_lowercase ](s: &str) -> (r: String)
    ensures
        r@ == unicode_lowercase(s@),
;

/// `str::to_uppercase` returns the Unicode uppercase mapping of the string.
pub assume_specification[ str::to_uppercase ](s: &str) -> (r: String)
    ensures
        r@ == unicode_uppercase(s@),
;

/// `s` without leading and trailing whitespace and with each inner run of
/// whitespace replaced by one space; `pending` is whether a space is owed
/// before the next non-whitespace character.
pub open spec fn collapse_whitespace(s: Seq<char>, pending: bool) -> Seq<char>
    decreases s.len(),
{
    if s.len() == 0 {
        seq![]
    } else if unicode_whitespace(s[0]) {
        collapse_whitespace(s.drop_first(), pending)
    } else if pending {
        seq![' ', s[0]] + collapse_whitespace_after(s.drop_first())
    } else {
        seq![s[0]] + collapse_whitespace_after(s.drop_first())
    }
}

/// Collapsing after a non-whitespace character: a following whitespace run
/// becomes one pending space.
pub open spec fn collapse_whitespace_after(s: Seq<char>) -> Seq<char>
    decreases s.len(),
{
    if s.len() == 0 {
        seq![]
    } else if unicode_whitespace(s[0]) {
        collapse_whitespace(s.drop_first(), true)
    } else {
        seq![s[0]] + collapse_whitespace_after(s.drop_first())
    }
}

/// The key under which a label is looked up: trimmed, inner whitespace
/// collapsed to single spaces, and case-folded by lowercasing then
/// uppercasing.
pub open spec fn normalize_label(s: Seq<char>) -> Seq<char> {
    unicode_uppercase(unicode_lowercase(collapse_whitespace(s, false)))
}

/// Destination and title of a link reference definition.
pub struct Reference {
    pub destination: String,
    pub title: Option<String>,
}

/// Link reference definitions of a document, keyed by normalized label.
pub struct ReferenceMap {
    pub entries: Vec<(String, Reference)>,
}

/// The first entry of `entries` whose key is `key`.
pub open spec fn find_reference(entries: Seq<(String, Reference)>, key: Seq<char>) -> Option<Reference>
    decreases entries.len(),
{
    if entries.len() == 0 {
        None
    } else if entries[0].0@ == key {
        Some(entries[0].1)
    } else {
        find_reference(entries.drop_first(), key)
    }
}

/// Normalized form of `label`.
pub fn normalize_reference(label: &str) -> (r: String)
    ensures
        r@ == normalize_label(label@),
{
    let n = label.unicode_len();
    let mut out = String::new();
    let mut i: usize = 0;
    let mut pending = false;
    let mut after_word = false;
    assert(label@.skip(0) =~= label@);
    while i < n
        invariant
            n == label@.len(),
            i <= n,
            !(pending && after_word),
            out@ + (if after_word {
                collapse_whitespace_after(label@.skip(i as int))
            } else {
                collapse_whitespace(label@.skip(i as int), pending)
            }) == collapse_whitespace(label@, false),
        decreases n - i,
    {
        let c = label.get_char(i);
        let ghost rest = label@.skip(i as int);
        let ghost before = out@;
        assert(rest[0] == c);
        assert(rest.drop_first() =~= label@.skip(i + 1));
        let ghost tail = rest.drop_first();
        if c.is_whitespace() {
            assert(collapse_whitespace(rest, pending) == collapse_whitespace(tail, pending));
            assert(collapse_whitespace_after(rest) == collapse_whitespace(tail, true));
            if after_word {
                pending = true;
                after_word = false;
            }
        } else {
            assert(pending ==> collapse_whitespace(rest, pending) == seq![' ', c] + collapse_whitespace_after(tail));
            assert(!pending && !after_word ==> collapse_whitespace(rest, pending) == seq![c] + collapse_whitespace_after(tail));
            assert(after_word ==> collapse_whitespace_after(rest) == seq![c] + collapse_whitespace_after(tail));
            if pending {
                out.push(' ');
            }
            out.push(c);
            pending = false;
            after_word = true;
        }
        i = i + 1;
        assert(out@ + (if after_word {
            collapse_whitespace_after(label@.skip(i as int))
        } else {
            collapse_whitespace(label@.skip(i as int), pending)
        }) =~= collapse_whitespace(label@, false));
    }
    assert(label@.skip(n as int) =~= Seq::<char>::empty());
    assert(out@ =~= collapse_whitespace(label@, false));
    let lower = out.as_str().to_lowercase();
    lower.as_str().to_uppercase()
}

/// Reading a label after a definition was added for it gives that
/// definition; labels that normalize differently are unaffected.
pub proof fn lemma_insert_then_get(entries: Seq<(String, Reference)>, label: Seq<char>, other: Seq<char>, d: Reference, key: String)
    requires
        key@ == normalize_label(label),
        find_reference(entries, normalize_label(label)) is None,
    ensures
        find_reference(entries.push((key, d)), normalize_label(label)) == Some(d),
        normalize_label(other) != normalize_label(label) ==> find_reference(entries.push((key, d)), normalize_label(other))
            == find_reference(entries, normalize_label(other)),
{
    lemma_find_reference_push(entries, normalize_label(label), (key, d));
    if normalize_label(other) != normalize_label(label) {
        lemma_find_reference_push_other(entries, normalize_label(other), (key, d));
    }
}

proof fn lemma_find_reference_push_other(entries: Seq<(String, Reference)>, k: Seq<char>, e: (String, Reference))
    requires
        e.0@ != k,
    ensures
        find_reference(entries.push(e), k) == find_reference(entries, k),
    decreases entries.len(),
{
    if entries.len() == 0 {
        assert(entries.push(e)[0] == e);
        assert(entries.push(e).drop_first() =~= Seq::<(String, Reference)>::empty());
        assert(find_reference(Seq::<(String, Reference)>::empty(), k) is None);
    } else {
        assert(entries.push(e)[0] == entries[0]);
        assert(entries.push(e).drop_first() =~= entries.drop_first().push(e));
        lemma_find_reference_push_other(entries.drop_first(), k, e);
    }
}

impl ReferenceMap {
    /// An empty map.
    pub fn new() -> (m: ReferenceMap)
        ensures
            m.entries@.len() == 0,
    {
        ReferenceMap { entries: Vec::new() }
    }

    /// Adds a definition for `label`, unless the label already has one.
    pub fn insert(&mut self, label: &str, destination: String, title: Option<String>) -> (added: bool)
        ensures
            added == (find_reference(old(self).entries@, normalize_label(label@)) is None),
            added ==> find_reference(final(self).entries@, normalize_label(label@)) == Some(
                Reference { destination, title },
            ),
            !added ==> final(self).entries@ == old(self).entries@,
    {
        let key = normalize_reference(label);
        if self.find(&key).is_some() {
            return false;
        }
        self.entries.push((key, Reference { destination, title }));
        proof {
            lemma_find_reference_push(old(self).entries@, normalize_label(label@), self.entries@.last());
        }
        true
    }

    fn find(&self, key: &String) -> (r: Option<usize>)
        ensures
            match r {
                Some(i) => i < self.entries@.len() && find_reference(self.entries@, key@) == Some(
                    self.entries@[i as int].1,
                ),
                None => find_reference(self.entries@, key@) is None,
            },
    {
        let mut i: usize = 0;
        assert(self.entries@.skip(0) =~= self.entries@);
        while i < self.entries.len()
            invariant
                i <= self.entries@.len(),
                find_reference(self.entries@, key@) == find_reference(self.entries@.skip(i as int), key@),
            decreases self.entries@.len() - i,
        {
            let ghost rest = self.entries@.skip(i as int);
            assert(rest[0] == self.entries@[i as int]);
            if self.entries[i].0 == *key {
                return Some(i);
            }
            assert(rest.drop_first() =~= self.entries@.skip(i + 1));
            i = i + 1;
        }
        None
    }

    /// The definition whose normalized label equals that of `label`.
    pub fn get(&self, label: &str) -> (r: Option<&Reference>)
        ensures
            match find_reference(self.entries@, normalize_label(label@)) {
                Some(d) => r == Some(&d),
                None => r is None,
            },
    {
        let key = normalize_reference(label);
        match self.find(&key) {
            Some(i) => Some(&self.entries[i].1),
            None => None,
        }
    }
}

/// A definition added for a key not yet defined is what the key then
/// finds.
pub proof fn lemma_find_reference_push(entries: Seq<(String, Reference)>, key: Seq<char>, e: (String, Reference))
    requires
        find_reference(entries, key) is None,
        e.0@ == key,
    ensures
        find_reference(entries.push(e), key) == Some(e.1),
    decreases entries.len(),
{
    if entries.len() == 0 {
        assert(entries.push(e)[0] == e);
    } else {
        assert(entries.push(e).drop_first() =~= entries.drop_first().push(e));
        lemma_find_reference_push(entries.drop_first(), key, e);
    }
}

} // verus!
