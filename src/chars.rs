use vstd::prelude::*;

verus! {

/// The characters that carry the Unicode `White_Space` property.
pub open spec fn is_space(c: char) -> bool {
    ('\u{9}' <= c && c <= '\u{d}') || c == ' ' || c == '\u{85}' || c == '\u{a0}' || c
        == '\u{1680}' || ('\u{2000}' <= c && c <= '\u{200a}') || c == '\u{2028}' || c
        == '\u{2029}' || c == '\u{202f}' || c == '\u{205f}' || c == '\u{3000}'
}

/// ASCII letters and digits: the characters of a tag or attribute name.
pub open spec fn is_name_char(c: char) -> bool {
    ('a' <= c && c <= 'z') || ('A' <= c && c <= 'Z') || ('0' <= c && c <= '9')
}

/// ASCII letters and digits, `-` and `_`: the characters of a style sheet identifier.
pub open spec fn is_ident_char(c: char) -> bool {
    is_name_char(c) || c == '-' || c == '_'
}

pub fn ident_char(c: char) -> (r: bool)
    ensures
        r == is_ident_char(c),
{
    name_char(c) || c == '-' || c == '_'
}

pub fn space(c: char) -> (r: bool)
    ensures
        r == is_space(c),
{
    ('\u{9}' <= c && c <= '\u{d}') || c == ' ' || c == '\u{85}' || c == '\u{a0}' || c
        == '\u{1680}' || ('\u{2000}' <= c && c <= '\u{200a}') || c == '\u{2028}' || c
        == '\u{2029}' || c == '\u{202f}' || c == '\u{205f}' || c == '\u{3000}'
}

pub fn name_char(c: char) -> (r: bool)
    ensures
        r == is_name_char(c),
{
    ('a' <= c && c <= 'z') || ('A' <= c && c <= 'Z') || ('0' <= c && c <= '9')
}

/// The characters of a string, one element each.
pub fn to_chars(s: &str) -> (r: Vec<char>)
    ensures
        r@ == s@,
{
    let n = s.unicode_len();
    let mut r: Vec<char> = Vec::new();
    let mut i: usize = 0;
    while i < n
        invariant
            n == s@.len(),
            i <= n,
            r@ == s@.subrange(0, i as int),
        decreases n - i,
    {
        r.push(s.get_char(i));
        i = i + 1;
    }
    assert(r@ =~= s@);
    r
}

} // verus!

verus! {

/// Whether `t` occurs in `s` starting at position `i`.
pub fn occurs_at(s: &Vec<char>, i: usize, t: &Vec<char>) -> (r: bool)
    requires
        i + t@.len() <= s@.len(),
    ensures
        r == (s@.subrange(i as int, i + t@.len()) == t@),
{
    let n = s.len();
    let mut k: usize = 0;
    while k < t.len()
        invariant
            n == s@.len(),
            i + t@.len() <= s@.len(),
            k <= t@.len(),
            s@.subrange(i as int, i + k) == t@.subrange(0, k as int),
        decreases t@.len() - k,
    {
        if s[i + k] != t[k] {
            assert(s@.subrange(i as int, i + t@.len())[k as int] != t@[k as int]);
            return false;
        }
        assert(s@.subrange(i as int, i + k + 1) =~= t@.subrange(0, k + 1));
        k = k + 1;
    }
    assert(t@.subrange(0, k as int) =~= t@);
    true
}

/// Whether two strings hold the same characters.
pub fn str_eq(a: &str, b: &str) -> (r: bool)
    ensures
        r == (a@ == b@),
{
    let x = to_chars(a);
    let y = to_chars(b);
    if x.len() != y.len() {
        return false;
    }
    let r = occurs_at(&x, 0, &y);
    assert(x@.subrange(0, y@.len() as int) =~= x@);
    r
}

/// Whether `t` is one of the whitespace-separated words of `s`.
pub open spec fn is_word_of(s: Seq<char>, t: Seq<char>) -> bool {
    &&& t.len() > 0
    &&& forall|k: int| 0 <= k < t.len() ==> !is_space(#[trigger] t[k])
    &&& exists|i: int| word_at(s, t, i)
}

/// `t` stands in `s` at `i`, with whitespace or an end of `s` on each side.
pub open spec fn word_at(s: Seq<char>, t: Seq<char>, i: int) -> bool {
    &&& 0 <= i
    &&& i + t.len() <= s.len()
    &&& s.subrange(i, i + t.len()) == t
    &&& (i == 0 || is_space(s[i - 1]))
    &&& (i + t.len() == s.len() || is_space(s[i + t.len()]))
}

/// Whether `t` is one of the whitespace-separated words of `s`.
pub fn has_word(s: &str, t: &str) -> (r: bool)
    ensures
        r == is_word_of(s@, t@),
{
    let sc = to_chars(s);
    let tc = to_chars(t);
    if tc.len() == 0 {
        return false;
    }
    let mut k: usize = 0;
    while k < tc.len()
        invariant
            tc@ == t@,
            k <= t@.len(),
            forall|j: int| 0 <= j < k ==> !is_space(#[trigger] t@[j]),
        decreases t@.len() - k,
    {
        if space(tc[k]) {
            assert(is_space(t@[k as int]));
            return false;
        }
        k = k + 1;
    }
    if tc.len() > sc.len() {
        assert forall|i: int| !word_at(s@, t@, i) by {}
        return false;
    }
    let mut i: usize = 0;
    while i <= sc.len() - tc.len()
        invariant
            sc@ == s@,
            tc@ == t@,
            i <= s@.len() - t@.len() + 1,
            t@.len() <= s@.len(),
            t@.len() > 0,
            forall|j: int| 0 <= j < t@.len() ==> !is_space(#[trigger] t@[j]),
            forall|j: int| 0 <= j < i ==> !word_at(s@, t@, j),
        decreases s@.len() - i,
    {
        let before = i == 0 || space(sc[i - 1]);
        let after = i + tc.len() == sc.len() || space(sc[i + tc.len()]);
        if before && after && occurs_at(&sc, i, &tc) {
            assert(word_at(s@, t@, i as int));
            return true;
        }
        i = i + 1;
    }
    assert forall|j: int| !word_at(s@, t@, j) by {
        if 0 <= j < i {
        }
    }
    false
}

} // verus!
