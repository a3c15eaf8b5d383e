//! Character-level helpers: searching, splicing and trimming text, all stated
//! over `Seq<char>`.

use vstd::prelude::*;

verus! {

/// The least index `k` in `[i, n)` with `p(k)`, if there is one.
pub open spec fn first_index(n: int, p: spec_fn(int) -> bool, i: int) -> Option<int>
    decreases n - i,
{
    if i >= n {
        None
    } else if p(i) {
        Some(i)
    } else {
        first_index(n, p, i + 1)
    }
}

/// What `first_index` finds: the least matching index, or that none matches.
pub proof fn lemma_first_index(n: int, p: spec_fn(int) -> bool, i: int)
    ensures
        match first_index(n, p, i) {
            Some(k) => i <= k < n && p(k) && forall|j: int| i <= j < k ==> !#[trigger] p(j),
            None => forall|j: int| i <= j < n ==> !#[trigger] p(j),
        },
    decreases n - i,
{
    if i < n && !p(i) {
        lemma_first_index(n, p, i + 1);
    }
}

/// The greatest index `k` in `[lo, hi)` with `p(k)`, if there is one.
pub open spec fn last_index(lo: int, hi: int, p: spec_fn(int) -> bool) -> Option<int>
    decreases hi - lo,
{
    if hi <= lo {
        None
    } else if p(hi - 1) {
        Some(hi - 1)
    } else {
        last_index(lo, hi - 1, p)
    }
}

/// What `last_index` finds: the greatest matching index, or that none matches.
pub proof fn lemma_last_index(lo: int, hi: int, p: spec_fn(int) -> bool)
    ensures
        match last_index(lo, hi, p) {
            Some(k) => lo <= k < hi && p(k) && forall|j: int| k < j < hi ==> !#[trigger] p(j),
            None => forall|j: int| lo <= j < hi ==> !#[trigger] p(j),
        },
    decreases hi - lo,
{
    if lo < hi && !p(hi - 1) {
        lemma_last_index(lo, hi - 1, p);
    }
}

/// `k` is the least index in `[i, n)` with `p(k)`.
pub proof fn lemma_first_index_is(n: int, p: spec_fn(int) -> bool, i: int, k: int)
    requires
        i <= k < n,
        p(k),
        forall|j: int| i <= j < k ==> !#[trigger] p(j),
    ensures
        first_index(n, p, i) == Some(k),
    decreases k - i,
{
    if i < k {
        lemma_first_index_is(n, p, i + 1, k);
    }
}

/// `k` is the greatest index in `[lo, hi)` with `p(k)`.
pub proof fn lemma_last_index_is(lo: int, hi: int, p: spec_fn(int) -> bool, k: int)
    requires
        lo <= k < hi,
        p(k),
        forall|j: int| k < j < hi ==> !#[trigger] p(j),
    ensures
        last_index(lo, hi, p) == Some(k),
    decreases hi - k,
{
    if k < hi - 1 {
        lemma_last_index_is(lo, hi - 1, p, k);
    }
}

/// No index in `[lo, hi)` has `p`.
pub proof fn lemma_last_index_none(lo: int, hi: int, p: spec_fn(int) -> bool)
    requires
        forall|j: int| lo <= j < hi ==> !#[trigger] p(j),
    ensures
        last_index(lo, hi, p) is None,
    decreases hi - lo,
{
    if lo < hi {
        lemma_last_index_none(lo, hi - 1, p);
    }
}

/// No index in `[i, n)` has `p`.
pub proof fn lemma_first_index_none(n: int, p: spec_fn(int) -> bool, i: int)
    requires
        forall|j: int| i <= j < n ==> !#[trigger] p(j),
    ensures
        first_index(n, p, i) is None,
    decreases n - i,
{
    if i < n {
        lemma_first_index_none(n, p, i + 1);
    }
}

/// `pat` occurs in `s` starting at index `i`.
pub open spec fn occurs_at(s: Seq<char>, pat: Seq<char>, i: int) -> bool {
    0 <= i && i + pat.len() <= s.len() && s.subrange(i, i + pat.len()) == pat
}

/// The index of the first occurrence of `pat` in `s`.
pub open spec fn find_first(s: Seq<char>, pat: Seq<char>) -> Option<int> {
    first_index(s.len() as int, |i: int| occurs_at(s, pat, i), 0)
}

/// `s` with `s[i..j]` replaced by `rep`.
pub open spec fn splice(s: Seq<char>, i: int, j: int, rep: Seq<char>) -> Seq<char> {
    s.subrange(0, i) + rep + s.subrange(j, s.len() as int)
}

/// `s` with the first occurrence of `pat` replaced by `rep`; `s` itself when
/// `pat` does not occur.
pub open spec fn replace_first(s: Seq<char>, pat: Seq<char>, rep: Seq<char>) -> Seq<char> {
    match find_first(s, pat) {
        Some(i) => splice(s, i, i + pat.len(), rep),
        None => s,
    }
}

/// The whitespace characters of Unicode, as `char::is_whitespace` knows them.
pub open spec fn is_whitespace(ch: char) -> bool {
    ch == '\t' || ch == '\n' || ch == '\u{0B}' || ch == '\u{0C}' || ch == '\r' || ch == ' '
        || ch == '\u{85}' || ch == '\u{A0}' || ch == '\u{1680}' || ('\u{2000}' <= ch && ch
        <= '\u{200A}') || ch == '\u{2028}' || ch == '\u{2029}' || ch == '\u{202F}' || ch
        == '\u{205F}' || ch == '\u{3000}'
}

/// `s` without its leading and trailing whitespace.
pub open spec fn trim(s: Seq<char>) -> Seq<char> {
    match first_index(s.len() as int, |k: int| !is_whitespace(s[k]), 0) {
        Some(a) => s.subrange(
            a,
            last_index(0, s.len() as int, |k: int| !is_whitespace(s[k]))->0 + 1,
        ),
        None => Seq::empty(),
    }
}

/// The characters of a string, in order.
pub fn chars_of(s: &str) -> (r: Vec<char>)
    ensures
        r@ == s@,
{
    let mut r: Vec<char> = Vec::new();
    for c in it: s.chars()
        invariant
            r@ == it.seq().subrange(0, it.index() as int),
    {
        r.push(c);
    }
    r
}

/// Relies on `String::push`: the character is appended to the string.
#[verifier::external_body]
fn push_char(s: &mut String, c: char)
    ensures
        final(s)@ == old(s)@.push(c),
{
    s.push(c)
}

/// A string holding the characters of `v`, in order.
pub fn string_of(v: &[char]) -> (r: String)
    ensures
        r@ == v@,
{
    let mut r = String::new();
    let mut i: usize = 0;
    while i < v.len()
        invariant
            i <= v@.len(),
            r@ == v@.subrange(0, i as int),
        decreases v@.len() - i,
    {
        push_char(&mut r, v[i]);
        i = i + 1;
        assert(r@ =~= v@.subrange(0, i as int));
    }
    assert(v@.subrange(0, v@.len() as int) =~= v@);
    r
}

/// Whether `pat` occurs in `s` at index `i`.
pub fn matches_at(s: &Vec<char>, pat: &Vec<char>, i: usize) -> (r: bool)
    ensures
        r == occurs_at(s@, pat@, i as int),
{
    if i > s.len() || pat.len() > s.len() - i {
        return false;
    }
    let mut k: usize = 0;
    while k < pat.len()
        invariant
            i + pat.len() <= s.len(),
            k <= pat.len(),
            forall|m: int| 0 <= m < k ==> s@[i + m] == pat@[m],
        decreases pat.len() - k,
    {
        if s[i + k] != pat[k] {
            assert(s@.subrange(i as int, i + pat.len())[k as int] != pat@[k as int]);
            return false;
        }
        k = k + 1;
    }
    assert(s@.subrange(i as int, i + pat.len()) =~= pat@);
    true
}

/// The first occurrence of `pat` in `s`.
pub fn find(s: &Vec<char>, pat: &Vec<char>) -> (r: Option<usize>)
    ensures
        match r {
            Some(k) => find_first(s@, pat@) == Some(k as int),
            None => find_first(s@, pat@) is None,
        },
{
    let ghost p = |i: int| occurs_at(s@, pat@, i);
    let mut i: usize = 0;
    while i < s.len()
        invariant
            i <= s.len(),
            p == (|i: int| occurs_at(s@, pat@, i)),
            find_first(s@, pat@) == first_index(s@.len() as int, p, i as int),
        decreases s.len() - i,
    {
        if matches_at(s, pat, i) {
            return Some(i);
        }
        i = i + 1;
    }
    None
}

/// `s[i..j]` as a new vector.
pub fn slice_of(s: &Vec<char>, i: usize, j: usize) -> (r: Vec<char>)
    requires
        i <= j <= s.len(),
    ensures
        r@ == s@.subrange(i as int, j as int),
{
    let mut r: Vec<char> = Vec::new();
    let mut k: usize = i;
    while k < j
        invariant
            i <= k <= j <= s.len(),
            r@ == s@.subrange(i as int, k as int),
        decreases j - k,
    {
        r.push(s[k]);
        k = k + 1;
    }
    r
}

/// Appends `t` to `r`.
pub fn push_all(r: &mut Vec<char>, t: &Vec<char>)
    ensures
        final(r)@ == old(r)@ + t@,
{
    let mut k: usize = 0;
    while k < t.len()
        invariant
            k <= t.len(),
            r@ == old(r)@ + t@.subrange(0, k as int),
        decreases t.len() - k,
    {
        r.push(t[k]);
        k = k + 1;
    }
    assert(t@.subrange(0, t@.len() as int) =~= t@);
}

/// Whether `ch` is whitespace.
pub fn is_whitespace_char(ch: char) -> (r: bool)
    ensures
        r == is_whitespace(ch),
{
    ch == '\t' || ch == '\n' || ch == '\u{0B}' || ch == '\u{0C}' || ch == '\r' || ch == ' '
        || ch == '\u{85}' || ch == '\u{A0}' || ch == '\u{1680}' || ('\u{2000}' <= ch && ch
        <= '\u{200A}') || ch == '\u{2028}' || ch == '\u{2029}' || ch == '\u{202F}' || ch
        == '\u{205F}' || ch == '\u{3000}'
}

/// `s` without its leading and trailing whitespace.
pub fn trim_vec(s: &Vec<char>) -> (r: Vec<char>)
    ensures
        r@ == trim(s@),
{
    let ghost front = |k: int| !is_whitespace(s@[k]);
    let mut a: usize = 0;
    while a < s.len() && is_whitespace_char(s[a])
        invariant
            a <= s.len(),
            front == (|k: int| !is_whitespace(s@[k])),
            first_index(s@.len() as int, front, 0) == first_index(s@.len() as int, front, a as int),
        decreases s.len() - a,
    {
        a = a + 1;
    }
    if a == s.len() {
        return Vec::new();
    }
    proof {
        lemma_last_index(0, s@.len() as int, front);
    }
    let mut b: usize = s.len();
    while is_whitespace_char(s[b - 1])
        invariant
            a < s.len(),
            b <= s.len(),
            !is_whitespace(s@[a as int]),
            front == (|k: int| !is_whitespace(s@[k])),
            last_index(0, s@.len() as int, front) == last_index(0, b as int, front),
            a < b,
        decreases b,
    {
        b = b - 1;
    }
    slice_of(s, a, b)
}

/// `s[0..i] + rep + s[j..]`.
pub fn splice_vec(s: &Vec<char>, i: usize, j: usize, rep: &Vec<char>) -> (r: Vec<char>)
    requires
        i <= j <= s.len(),
    ensures
        r@ == splice(s@, i as int, j as int, rep@),
{
    let mut r = slice_of(s, 0, i);
    push_all(&mut r, rep);
    let tail = slice_of(s, j, s.len());
    push_all(&mut r, &tail);
    r
}

/// `s` with its first occurrence of `pat` replaced by `rep`.
pub fn replace_first_vec(s: &Vec<char>, pat: &Vec<char>, rep: &Vec<char>) -> (r: Vec<char>)
    ensures
        r@ == replace_first(s@, pat@, rep@),
{
    match find(s, pat) {
        Some(i) => {
            proof {
                lemma_first_index(s@.len() as int, |k: int| occurs_at(s@, pat@, k), 0);
                assert(occurs_at(s@, pat@, i as int));
                assert(i + pat@.len() <= s@.len());
            }
            let n: usize = pat.len();
            assert(i + n <= s.len());
            splice_vec(s, i, i + n, rep)
        },
        None => {
            let mut r: Vec<char> = Vec::new();
            push_all(&mut r, s);
            r
        },
    }
}

/// Whether two strings hold the same text.
pub fn same_str(a: &str, b: &str) -> (r: bool)
    ensures
        r == (a@ == b@),
{
    let x = String::from_str(a);
    let y = String::from_str(b);
    x == y
}

} // verus!
