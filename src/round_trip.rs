//! Reading a record back after a status change.

use vstd::prelude::*;
use crate::adr::{Adr, braced, stamped, status_replaced, token_is_read};
use crate::date::{AdrDate, digit};
use crate::parse::{
    date_at, first_date, is_digit, line_end, lemma_line_end, status_close, status_of, status_span,
    status_start,
};
use crate::status::{Status, keyword, lemma_keyword_letters, lemma_keyword_round_trip};
use crate::text::{
    find_first, is_whitespace, lemma_first_index, lemma_first_index_is, replace_first,
    lemma_last_index, lemma_last_index_is, occurs_at, splice, trim,
};

verus! {

/// A character a date is written with.
pub open spec fn is_date_char(ch: char) -> bool {
    is_digit(ch) || ch == '-'
}

/// `x` and `y` have the same length and differ at most where both hold date
/// characters.
pub open spec fn agree_outside_dates(x: Seq<char>, y: Seq<char>) -> bool {
    &&& x.len() == y.len()
    &&& forall|k: int|
        0 <= k < x.len() ==> #[trigger] x[k] == y[k] || (is_date_char(x[k]) && is_date_char(y[k]))
}

/// `pat` occurs in `s` at exactly one index.
pub open spec fn occurs_once(s: Seq<char>, pat: Seq<char>) -> bool {
    exists|p: int| occurs_at(s, pat, p) && forall|i: int| #[trigger] occurs_at(s, pat, i) ==> i == p
}

proof fn lemma_digit(n: u32)
    requires
        n < 10,
    ensures
        is_digit(digit(n)),
{
    let ds = seq!['0', '1', '2', '3', '4', '5', '6', '7', '8', '9'];
    assert(digit(n) == ds[n as int]);
}

/// Stamping a date changes date characters into date characters only.
pub proof fn lemma_stamped_agrees(t: Seq<char>, d: AdrDate)
    requires
        d.wf(),
    ensures
        agree_outside_dates(stamped(t, d), t),
{
    match first_date(t) {
        Some(w) => {
            lemma_first_index(t.len() as int, |i: int| date_at(t, i), 0);
            lemma_digit(d.year / 1000);
            lemma_digit((d.year / 100) % 10);
            lemma_digit((d.year / 10) % 10);
            lemma_digit(d.year % 10);
            lemma_digit(d.month / 10);
            lemma_digit(d.month % 10);
            lemma_digit(d.day / 10);
            lemma_digit(d.day % 10);
            let r = stamped(t, d);
            assert forall|k: int| 0 <= k < r.len() implies #[trigger] r[k] == t[k] || (
            is_date_char(r[k]) && is_date_char(t[k])) by {
                if w <= k < w + 10 {
                    assert(r[k] == d.text()[k - w]);
                    assert(date_at(t, w));
                }
            }
        },
        None => {},
    }
}

/// `k` is a non-empty run of lower-case ASCII letters.
pub open spec fn is_word(k: Seq<char>) -> bool {
    k.len() >= 1 && forall|m: int| 0 <= m < k.len() ==> 'a' <= #[trigger] k[m] <= 'z'
}

/// The characters of `{<word>}` after the opening brace are not `{`, and
/// none of them is a newline or a date character.
proof fn lemma_braced_chars(k: Seq<char>, x: int)
    requires
        is_word(k),
        0 <= x < braced(k).len(),
    ensures
        braced(k)[x] != '\n',
        !is_date_char(braced(k)[x]),
        x > 0 ==> braced(k)[x] != '{',
        x < braced(k).len() - 1 ==> braced(k)[x] != '}',
{
    if 0 < x < braced(k).len() - 1 {
        assert(braced(k)[x] == k[x - 1]);
    }
}

/// A `{<word>}` token at `i` opens a bracketed token there.
proof fn lemma_token_opens(c: Seq<char>, k: Seq<char>, i: int)
    requires
        is_word(k),
        occurs_at(c, braced(k), i),
    ensures
        status_start(c, i),
{
    let b = braced(k);
    let close = i + b.len() - 1;
    assert(c[i] == b[0]);
    assert(c[close] == b[b.len() - 1]);
    lemma_line_end(c, i + 1);
    let e = line_end(c, i + 1);
    if e <= close {
        assert(c[e] == b[e - i]);
        lemma_braced_chars(k, e - i);
    }
    let f = |m: int| c[m] == '}';
    assert(f(close));
    lemma_last_index(i + 2, e, f);
}

/// The first bracketed token of `c` is exactly `{<ko>}`, from `p` to `q`.
pub open spec fn token_read(c: Seq<char>, ko: Seq<char>, p: int, q: int) -> bool {
    status_span(c) == Some((p, q)) && c.subrange(p, q + 1) == braced(ko)
}

/// The token the parser reads is the first occurrence of its text.
proof fn lemma_token_is_first(c: Seq<char>, ko: Seq<char>, p: int, q: int)
    requires
        is_word(ko),
        token_read(c, ko, p, q),
    ensures
        find_first(c, braced(ko)) == Some(p),
        q == p + braced(ko).len() - 1,
        0 <= p && q < c.len(),
{
    let tok = braced(ko);
    let sp = |i: int| status_start(c, i);
    lemma_first_index(c.len() as int, sp, 0);
    assert(status_start(c, p));
    let e = line_end(c, p + 1);
    lemma_line_end(c, p + 1);
    lemma_last_index(p + 2, e, |m: int| c[m] == '}');
    assert forall|i: int| 0 <= i < p implies !#[trigger] occurs_at(c, tok, i) by {
        if occurs_at(c, tok, i) {
            lemma_token_opens(c, ko, i);
            assert(sp(i));
        }
    }
    assert(occurs_at(c, tok, p));
    lemma_first_index_is(c.len() as int, |i: int| occurs_at(c, tok, i), 0, p);
}

/// Replacing the token read by `{<kn>}`, and then changing date characters
/// only, leaves a text whose first bracketed token is the new one.
proof fn lemma_span_after(c: Seq<char>, ko: Seq<char>, kn: Seq<char>, p: int, q: int, r: Seq<char>)
    requires
        is_word(ko),
        is_word(kn),
        token_read(c, ko, p, q),
        q == p + braced(ko).len() - 1,
        0 <= p && q < c.len(),
        agree_outside_dates(r, splice(c, p, q + 1, braced(kn))),
    ensures
        status_span(r) == Some((p, p + braced(kn).len() - 1)),
        r.subrange(p, p + braced(kn).len() as int) == braced(kn),
{
    let tok = braced(ko);
    let nw = braced(kn);
    let tl = tok.len() as int;
    let nl = nw.len() as int;
    let t1 = splice(c, p, q + 1, nw);
    assert forall|k: int| 0 <= k < p implies #[trigger] t1[k] == c[k] by {}
    assert forall|k: int| p <= k < p + nl implies #[trigger] t1[k] == nw[k - p] by {}
    assert forall|k: int| p + nl <= k < t1.len() implies #[trigger] t1[k] == c[k - nl + tl] by {}
    assert forall|k: int| p <= k < p + nl implies #[trigger] r[k] == nw[k - p] by {
        lemma_braced_chars(kn, k - p);
    }
    assert(r.subrange(p, p + nl) =~= nw);
    let sp = |i: int| status_start(c, i);
    lemma_first_index(c.len() as int, sp, 0);
    assert(status_start(c, p));
    let e = line_end(c, p + 1);
    lemma_line_end(c, p + 1);
    let f = |m: int| c[m] == '}';
    lemma_last_index(p + 2, e, f);
    let close = p + nl - 1;
    let el = e - tl + nl;
    assert forall|k: int| p + 1 <= k < el implies #[trigger] r[k] != '\n' by {
        if k >= p + nl {
            assert(t1[k] == c[k - nl + tl]);
        } else {
            lemma_braced_chars(kn, k - p);
        }
    }
    if el < r.len() {
        assert(t1[el] == c[e]);
    }
    crate::parse::lemma_line_end_is(r, p + 1, el);
    let g = |m: int| r[m] == '}';
    assert forall|k: int| close < k < el implies !#[trigger] g(k) by {
        assert(t1[k] == c[k - nl + tl]);
        assert(!f(k - nl + tl));
    }
    assert(g(close));
    lemma_last_index_is(p + 2, el, g, close);
    assert(status_start(r, p));
    assert forall|j: int| 0 <= j < p implies !#[trigger] status_start(r, j) by {
        if r[j] == '{' {
            assert(t1[j] == c[j]);
            assert(!sp(j));
            let m = line_end(c, j + 1);
            lemma_line_end(c, j + 1);
            let h = |x: int| c[x] == '}';
            lemma_last_index(j + 2, m, h);
            if m >= p {
                if m > q {
                    assert(h(q));
                } else {
                    assert(c[m] == tok[m - p]);
                    lemma_braced_chars(ko, m - p);
                }
            }
            assert(m < p);
            assert(c[m] == '\n');
            assert(t1[m] == c[m]);
            assert(r[m] == t1[m]);
            lemma_line_end(r, j + 1);
            let lr = line_end(r, j + 1);
            assert(lr <= m);
            assert forall|x: int| j + 2 <= x < lr implies !#[trigger] g(x) by {
                assert(t1[x] == c[x]);
                assert(!h(x));
            }
            crate::text::lemma_last_index_none(j + 2, lr, g);
        }
    }
    lemma_first_index_is(r.len() as int, |i: int| status_start(r, i), 0, p);
}

/// After the same change, `{<kn>}` occurs exactly once when it did not occur
/// after the token read.
proof fn lemma_once_after(c: Seq<char>, ko: Seq<char>, kn: Seq<char>, p: int, q: int, r: Seq<char>)
    requires
        is_word(ko),
        is_word(kn),
        token_read(c, ko, p, q),
        q == p + braced(ko).len() - 1,
        0 <= p && q < c.len(),
        agree_outside_dates(r, splice(c, p, q + 1, braced(kn))),
        r.subrange(p, p + braced(kn).len() as int) == braced(kn),
        forall|i: int| q < i ==> !#[trigger] occurs_at(c, braced(kn), i),
    ensures
        occurs_once(r, braced(kn)),
{
    let tok = braced(ko);
    let nw = braced(kn);
    let tl = tok.len() as int;
    let nl = nw.len() as int;
    let t1 = splice(c, p, q + 1, nw);
    let sp = |i: int| status_start(c, i);
    lemma_first_index(c.len() as int, sp, 0);
    assert forall|i: int| #[trigger] occurs_at(r, nw, i) implies i == p by {
        let w = r.subrange(i, i + nl);
        if i < p {
            if i + nl - 1 >= p {
                assert(w[p - i] == r[p]);
                assert(r.subrange(p, p + nl)[0] == r[p]);
                lemma_braced_chars(kn, p - i);
            }
            assert forall|x: int| 0 <= x < nl implies c.subrange(i, i + nl)[x] == #[trigger] nw[x] by {
                assert(w[x] == r[i + x]);
                lemma_braced_chars(kn, x);
                assert(t1[i + x] == c[i + x]);
            }
            assert(c.subrange(i, i + nl) =~= nw);
            lemma_token_opens(c, kn, i);
            assert(sp(i));
        } else if i < p + nl {
            if i > p {
                assert(w[0] == r[i]);
                assert(r.subrange(p, p + nl)[i - p] == r[i]);
                lemma_braced_chars(kn, i - p);
            }
        } else {
            let i0 = i - nl + tl;
            assert forall|x: int| 0 <= x < nl implies c.subrange(i0, i0 + nl)[x] == #[trigger] nw[x] by {
                assert(w[x] == r[i + x]);
                lemma_braced_chars(kn, x);
                assert(t1[i + x] == c[i0 + x]);
            }
            assert(c.subrange(i0, i0 + nl) =~= nw);
            assert(occurs_at(c, nw, i0));
        }
    }
    assert(occurs_at(r, nw, p));
}

/// Trimming leaves a keyword as it is.
proof fn lemma_trim_keyword(s: Status)
    ensures
        trim(keyword(s)) == keyword(s),
{
    let k = keyword(s);
    lemma_keyword_letters(s);
    let p = |m: int| !is_whitespace(k[m]);
    lemma_first_index_is(k.len() as int, p, 0, 0);
    lemma_last_index_is(0, k.len() as int, p, k.len() - 1);
    assert(k.subrange(0, k.len() as int) =~= k);
}

/// After the status token that the parser reads is replaced by that of
/// `next` and the first date stamped, the text reads back as `next`. This
/// asks that the parser's first bracketed token be exactly the token of `old`.
pub proof fn lemma_applied_status_parses(c: Seq<char>, old: Status, next: Status, d: AdrDate)
    requires
        d.wf(),
        token_is_read(c, old),
    ensures
        status_of(stamped(status_replaced(c, old, next), d)) == next,
{
    let (p, q) = status_span(c)->0;
    let ko = keyword(old);
    let kn = keyword(next);
    lemma_keyword_letters(old);
    lemma_keyword_letters(next);
    lemma_token_is_first(c, ko, p, q);
    let t1 = splice(c, p, q + 1, braced(kn));
    assert(status_replaced(c, old, next) == t1);
    let r = stamped(t1, d);
    lemma_stamped_agrees(t1, d);
    lemma_span_after(c, ko, kn, p, q, r);
    let close = p + braced(kn).len() - 1;
    assert forall|x: int| 0 <= x < kn.len() implies #[trigger] r.subrange(p + 1, close)[x]
        == kn[x] by {
        assert(r.subrange(p, p + braced(kn).len() as int)[x + 1] == braced(kn)[x + 1]);
    }
    assert(r.subrange(p + 1, close) =~= kn);
    lemma_trim_keyword(next);
    lemma_keyword_round_trip(next);
}

/// After the status token that the parser reads is replaced by that of
/// `next` and the first date stamped, the text reads back as `next`, and
/// holds the token of `next` exactly once. This asks that the parser's first
/// bracketed token be exactly the token of `old`, and that the token of
/// `next` not occur after it.
pub proof fn lemma_status_round_trip(c: Seq<char>, old: Status, next: Status, d: AdrDate)
    requires
        d.wf(),
        token_is_read(c, old),
        status_span(c) matches Some((p, q)) && forall|i: int|
            q < i ==> !#[trigger] occurs_at(c, braced(keyword(next)), i),
    ensures
        status_of(stamped(status_replaced(c, old, next), d)) == next,
        occurs_once(stamped(status_replaced(c, old, next), d), braced(keyword(next))),
{
    lemma_applied_status_parses(c, old, next, d);
    let (p, q) = status_span(c)->0;
    let ko = keyword(old);
    let kn = keyword(next);
    lemma_keyword_letters(old);
    lemma_keyword_letters(next);
    lemma_token_is_first(c, ko, p, q);
    let t1 = splice(c, p, q + 1, braced(kn));
    assert(status_replaced(c, old, next) == t1);
    let r = stamped(t1, d);
    lemma_stamped_agrees(t1, d);
    lemma_span_after(c, ko, kn, p, q, r);
    lemma_once_after(c, ko, kn, p, q, r);
}

/// `x` and `y` have the same length and, position by position, the same
/// digits and the same hyphens.
pub open spec fn same_shape(x: Seq<char>, y: Seq<char>) -> bool {
    &&& x.len() == y.len()
    &&& forall|k: int|
        0 <= k < x.len() ==> (is_digit(#[trigger] x[k]) <==> is_digit(y[k])) && (x[k] == '-' <==> y[k]
            == '-')
}

/// Texts of the same shape have dates at the same places.
proof fn lemma_same_shape_dates(x: Seq<char>, y: Seq<char>, i: int)
    requires
        same_shape(x, y),
    ensures
        date_at(x, i) == date_at(y, i),
{
    if 0 <= i && i + 10 <= x.len() {
        assert(x[i] == x[i] && y[i] == y[i]);
        assert(is_digit(x[i]) == is_digit(y[i]));
        assert(is_digit(x[i + 1]) == is_digit(y[i + 1]));
        assert(is_digit(x[i + 2]) == is_digit(y[i + 2]));
        assert(is_digit(x[i + 3]) == is_digit(y[i + 3]));
        assert((x[i + 4] == '-') == (y[i + 4] == '-'));
        assert(is_digit(x[i + 5]) == is_digit(y[i + 5]));
        assert(is_digit(x[i + 6]) == is_digit(y[i + 6]));
        assert((x[i + 7] == '-') == (y[i + 7] == '-'));
        assert(is_digit(x[i + 8]) == is_digit(y[i + 8]));
        assert(is_digit(x[i + 9]) == is_digit(y[i + 9]));
    }
}

/// The first date of a text is where the stamp goes, and the stamped text
/// reads back with the stamped date.
pub proof fn lemma_stamp_reads_back(t: Seq<char>, d: AdrDate)
    requires
        d.wf(),
        first_date(t) is Some,
    ensures
        first_date(stamped(t, d)) == first_date(t),
        crate::parse::date_of(stamped(t, d)) == d.text(),
{
    let w = first_date(t)->0;
    let pt = |i: int| date_at(t, i);
    lemma_first_index(t.len() as int, pt, 0);
    assert(date_at(t, w));
    lemma_digit(d.year / 1000);
    lemma_digit((d.year / 100) % 10);
    lemma_digit((d.year / 10) % 10);
    lemma_digit(d.year % 10);
    lemma_digit(d.month / 10);
    lemma_digit(d.month % 10);
    lemma_digit(d.day / 10);
    lemma_digit(d.day % 10);
    let r = stamped(t, d);
    let txt = d.text();
    assert forall|k: int| 0 <= k < r.len() implies (is_digit(#[trigger] r[k]) <==> is_digit(t[k])) && (
    r[k] == '-' <==> t[k] == '-') by {
        if w <= k < w + 10 {
            assert(r[k] == txt[k - w]);
        }
    }
    let pr = |i: int| date_at(r, i);
    assert forall|j: int| 0 <= j < w implies !#[trigger] pr(j) by {
        lemma_same_shape_dates(r, t, j);
        assert(!pt(j));
    }
    lemma_same_shape_dates(r, t, w);
    lemma_first_index_is(r.len() as int, pr, 0, w);
    assert(r.subrange(w, w + 10) =~= txt);
}

/// Replacing the token read by another keeps a date in the text.
proof fn lemma_replaced_keeps_date(c: Seq<char>, ko: Seq<char>, kn: Seq<char>, p: int, q: int)
    requires
        is_word(ko),
        is_word(kn),
        token_read(c, ko, p, q),
        q == p + braced(ko).len() - 1,
        0 <= p && q < c.len(),
        first_date(c) is Some,
    ensures
        first_date(splice(c, p, q + 1, braced(kn))) is Some,
{
    let tok = braced(ko);
    let tl = tok.len() as int;
    let nl = braced(kn).len() as int;
    let t1 = splice(c, p, q + 1, braced(kn));
    let w = first_date(c)->0;
    lemma_first_index(c.len() as int, |i: int| date_at(c, i), 0);
    assert(date_at(c, w));
    // the date lies wholly before or wholly after the token
    if w < p && w + 10 > p {
        assert(c[p] == tok[0]);
        assert(is_date_char(c[p])) by {
            if p - w == 4 || p - w == 7 {
            } else {
                assert(is_digit(c[w + (p - w)]));
            }
        }
    }
    if p <= w <= q {
        assert(c[w] == tok[w - p]);
        lemma_braced_chars(ko, w - p);
    }
    let w1 = if w < p {
        w
    } else {
        w - tl + nl
    };
    assert forall|k: int| 0 <= k < 10 implies #[trigger] t1[w1 + k] == c[w + k] by {}
    assert(date_at(t1, w1));
    let p1 = |i: int| date_at(t1, i);
    assert(p1(w1));
    lemma_first_index(t1.len() as int, p1, 0);
}

/// A record moved to a status on date `d`, whose text held a date, reads
/// back with date `d`, and its date field is `d`; this asks, as above, that
/// the record's status token be the first bracketed token of its text.
pub proof fn lemma_applied_date_reads_back(a: Adr, next: Status, d: AdrDate)
    requires
        d.wf(),
        token_is_read(a.content@, a.status),
        first_date(a.content@) is Some,
    ensures
        crate::parse::date_of(a.applied_content(next, d)) == d.text(),
        a.applied_date(next, d) == d.text(),
{
    let c = a.content@;
    let (p, q) = status_span(c)->0;
    let ko = keyword(a.status);
    let kn = keyword(next);
    lemma_keyword_letters(a.status);
    lemma_keyword_letters(next);
    lemma_token_is_first(c, ko, p, q);
    let t1 = splice(c, p, q + 1, braced(kn));
    assert(status_replaced(c, a.status, next) == t1);
    lemma_replaced_keeps_date(c, ko, kn, p, q);
    lemma_stamp_reads_back(t1, d);
}

/// A record moved to a status reads back with that status, and its text
/// holds that status's token exactly once, when the record's status token is
/// the first bracketed token of its text and the new token does not occur
/// after it.
pub proof fn lemma_applied_status_reads_back(a: Adr, next: Status, d: AdrDate)
    requires
        d.wf(),
        token_is_read(a.content@, a.status),
        status_span(a.content@) matches Some((p, q)) && forall|i: int|
            q < i ==> !#[trigger] occurs_at(a.content@, braced(keyword(next)), i),
    ensures
        status_of(a.applied_content(next, d)) == next,
        occurs_once(a.applied_content(next, d), braced(keyword(next))),
{
    lemma_status_round_trip(a.content@, a.status, next, d);
}

/// In a pair, a record moved to status `next` and then given a reference to
/// `name` holds `{<next>} <name>` in its text: the reference stands right
/// after the new status token. This asks the same of the record as the
/// status round trip does.
pub proof fn lemma_pair_reference(a: Adr, next: Status, d: AdrDate, name: Seq<char>)
    requires
        d.wf(),
        token_is_read(a.content@, a.status),
        status_span(a.content@) matches Some((p, q)) && forall|i: int|
            q < i ==> !#[trigger] occurs_at(a.content@, braced(keyword(next)), i),
    ensures
        exists|i: int|
            #[trigger] occurs_at(
                replace_first(
                    a.applied_content(next, d),
                    braced(keyword(next)),
                    braced(keyword(next)) + seq![' '] + name,
                ),
                braced(keyword(next)) + seq![' '] + name,
                i,
            ),
{
    let c = a.content@;
    let (p, q) = status_span(c)->0;
    let ko = keyword(a.status);
    let kn = keyword(next);
    let nw = braced(kn);
    lemma_keyword_letters(a.status);
    lemma_keyword_letters(next);
    lemma_token_is_first(c, ko, p, q);
    let t1 = splice(c, p, q + 1, nw);
    assert(status_replaced(c, a.status, next) == t1);
    let r = stamped(t1, d);
    lemma_stamped_agrees(t1, d);
    lemma_span_after(c, ko, kn, p, q, r);
    lemma_once_after(c, ko, kn, p, q, r);
    assert(occurs_at(r, nw, p));
    assert forall|j: int| 0 <= j < p implies !#[trigger] occurs_at(r, nw, j) by {}
    lemma_first_index_is(r.len() as int, |i: int| occurs_at(r, nw, i), 0, p);
    let rep = nw + seq![' '] + name;
    let out = splice(r, p, p + nw.len(), rep);
    assert(replace_first(r, nw, rep) == out);
    assert(out.subrange(p, p + rep.len()) =~= rep);
    assert(a.applied_content(next, d) == r);
    assert(occurs_at(replace_first(a.applied_content(next, d), nw, rep), rep, p));
}

/// A text whose first bracketed token spans `p..=close` keeps that token
/// first when everything after the token may change: no earlier position
/// opens a token, and the brace at `p` stays.
proof fn lemma_prefix_keeps_first(x: Seq<char>, y: Seq<char>, p: int, close: int)
    requires
        status_span(x) == Some((p, close)),
        0 <= p < close < x.len(),
        close < y.len(),
        y.subrange(0, close + 1) == x.subrange(0, close + 1),
        forall|k: int| p < k < close ==> #[trigger] x[k] != '\n',
    ensures
        forall|j: int| 0 <= j < p ==> !#[trigger] status_start(y, j),
        y[p] == '{',
{
    let sx = |i: int| status_start(x, i);
    lemma_first_index(x.len() as int, sx, 0);
    assert(sx(p));
    let ys = y.subrange(0, close + 1);
    let xs = x.subrange(0, close + 1);
    assert forall|k: int| 0 <= k <= close implies #[trigger] y[k] == x[k] by {
        assert(ys[k] == y[k]);
        assert(xs[k] == x[k]);
    }
    let e = line_end(x, p + 1);
    lemma_line_end(x, p + 1);
    lemma_last_index(p + 2, e, |m: int| x[m] == '}');
    assert forall|j: int| 0 <= j < p implies !#[trigger] status_start(y, j) by {
        if y[j] == '{' {
            assert(!sx(j));
            let m = line_end(x, j + 1);
            lemma_line_end(x, j + 1);
            let h = |t: int| x[t] == '}';
            lemma_last_index(j + 2, m, h);
            if m >= p {
                if m > close {
                    assert(h(close));
                } else if m == p {
                    assert(x[p] == '{');
                } else {
                    assert(x[m] != '\n');
                }
            }
            assert(m < p);
            assert(y[m] == '\n');
            lemma_line_end(y, j + 1);
            let ly = line_end(y, j + 1);
            assert(ly <= m);
            let g = |t: int| y[t] == '}';
            assert forall|t: int| j + 2 <= t < ly implies !#[trigger] g(t) by {
                assert(!h(t));
            }
            crate::text::lemma_last_index_none(j + 2, ly, g);
        }
    }
}

/// Writing ` <name>` right after the first bracketed token keeps that
/// token first and whole, when `name` holds no closing brace.
proof fn lemma_reference_keeps_token(r: Seq<char>, kn: Seq<char>, p: int, name: Seq<char>)
    requires
        is_word(kn),
        0 <= p,
        p + braced(kn).len() <= r.len(),
        status_span(r) == Some((p, p + braced(kn).len() - 1)),
        r.subrange(p, p + braced(kn).len() as int) == braced(kn),
        forall|k: int| 0 <= k < name.len() ==> #[trigger] name[k] != '}',
    ensures
        status_span(splice(r, p, p + braced(kn).len(), braced(kn) + seq![' '] + name)) == Some(
            (p, p + braced(kn).len() - 1),
        ),
        splice(r, p, p + braced(kn).len(), braced(kn) + seq![' '] + name).subrange(
            p + 1,
            p + braced(kn).len() - 1,
        ) == kn,
{
    let nw = braced(kn);
    let nl = nw.len() as int;
    let rep = nw + seq![' '] + name;
    let shift = 1 + name.len();
    let out = splice(r, p, p + nl, rep);
    let close = p + nl - 1;
    assert forall|k: int| p <= k < p + nl implies #[trigger] r[k] == nw[k - p] by {
        assert(r.subrange(p, p + nl)[k - p] == r[k]);
    }
    assert forall|k: int| p < k < close implies #[trigger] r[k] != '\n' by {
        lemma_braced_chars(kn, k - p);
    }
    assert(out.subrange(0, close + 1) =~= r.subrange(0, close + 1));
    lemma_prefix_keeps_first(r, out, p, close);
    let er = line_end(r, p + 1);
    lemma_line_end(r, p + 1);
    let f = |m: int| r[m] == '}';
    lemma_last_index(p + 2, er, f);
    assert forall|k: int| close + shift < k < out.len() implies #[trigger] out[k] == r[k
        - shift] by {}
    assert forall|k: int| close + 1 < k <= close + shift implies #[trigger] out[k] == name[k
        - close - 2] by {}
    assert(out[close + 1] == ' ');
    let eo = line_end(out, p + 1);
    lemma_line_end(out, p + 1);
    assert(eo > close) by {
        if eo <= close {
            assert(out[eo] == r[eo]);
        }
    }
    let g = |m: int| out[m] == '}';
    assert forall|k: int| close < k < eo implies !#[trigger] g(k) by {
        if k > close + shift {
            let kr = k - shift;
            assert(out[k] == r[kr]);
            if er <= kr {
                assert(r[er] == '\n');
                assert(out[er + shift] == r[er]);
                assert(close < er + shift < eo);
            }
            assert(!f(kr));
        } else if k > close + 1 {
            assert(out[k] == name[k - close - 2]);
        }
    }
    assert(g(close));
    lemma_last_index_is(p + 2, eo, g, close);
    assert(status_start(out, p));
    lemma_first_index_is(out.len() as int, |i: int| status_start(out, i), 0, p);
    assert(out.subrange(p + 1, close) =~= kn);
}

/// In a pair, a record moved to status `next` and then given a reference to
/// `name` still reads back as `next`, when `name` holds no closing brace.
/// This asks the same of the record as the status round trip does.
pub proof fn lemma_pair_reads_back(a: Adr, next: Status, d: AdrDate, name: Seq<char>)
    requires
        d.wf(),
        token_is_read(a.content@, a.status),
        status_span(a.content@) matches Some((p, q)) && forall|i: int|
            q < i ==> !#[trigger] occurs_at(a.content@, braced(keyword(next)), i),
        forall|k: int| 0 <= k < name.len() ==> #[trigger] name[k] != '}',
    ensures
        status_of(
            replace_first(
                a.applied_content(next, d),
                braced(keyword(next)),
                braced(keyword(next)) + seq![' '] + name,
            ),
        ) == next,
{
    let c = a.content@;
    let (p, q) = status_span(c)->0;
    let ko = keyword(a.status);
    let kn = keyword(next);
    let nw = braced(kn);
    let nl = nw.len() as int;
    lemma_keyword_letters(a.status);
    lemma_keyword_letters(next);
    lemma_token_is_first(c, ko, p, q);
    let t1 = splice(c, p, q + 1, nw);
    assert(status_replaced(c, a.status, next) == t1);
    let r = stamped(t1, d);
    assert(a.applied_content(next, d) == r);
    lemma_stamped_agrees(t1, d);
    lemma_span_after(c, ko, kn, p, q, r);
    lemma_once_after(c, ko, kn, p, q, r);
    assert(occurs_at(r, nw, p));
    assert forall|j: int| 0 <= j < p implies !#[trigger] occurs_at(r, nw, j) by {}
    lemma_first_index_is(r.len() as int, |i: int| occurs_at(r, nw, i), 0, p);
    let rep = nw + seq![' '] + name;
    assert(replace_first(r, nw, rep) == splice(r, p, p + nl, rep));
    lemma_reference_keeps_token(r, kn, p, name);
    lemma_trim_keyword(next);
    lemma_keyword_round_trip(next);
}

/// The text holds exactly one bracketed token, the one that starts at `p`.
pub open spec fn single_token_at(c: Seq<char>, p: int) -> bool {
    status_start(c, p) && forall|i: int| #[trigger] status_start(c, i) ==> i == p
}

/// No bracketed token opens after the replaced token unless one opened after
/// the old token already.
proof fn lemma_no_token_after(
    c: Seq<char>,
    ko: Seq<char>,
    kn: Seq<char>,
    p: int,
    q: int,
    r: Seq<char>,
    i: int,
)
    requires
        is_word(ko),
        is_word(kn),
        q == p + braced(ko).len() - 1,
        0 <= p && q < c.len(),
        c.subrange(p, q + 1) == braced(ko),
        agree_outside_dates(r, splice(c, p, q + 1, braced(kn))),
        p + braced(kn).len() <= i,
        status_start(r, i),
    ensures
        status_start(c, i - braced(kn).len() + braced(ko).len()),
{
    let nl = braced(kn).len() as int;
    let tl = braced(ko).len() as int;
    let t1 = splice(c, p, q + 1, braced(kn));
    let i0 = i - nl + tl;
    assert forall|x: int| p + nl <= x < t1.len() implies #[trigger] t1[x] == c[x - nl + tl] by {}
    assert(t1[i] == '{');
    let le = line_end(r, i + 1);
    lemma_line_end(r, i + 1);
    let g = |m: int| r[m] == '}';
    lemma_last_index(i + 2, le, g);
    let k = status_close(r, i)->0;
    assert(g(k));
    assert(t1[k] == '}');
    let k0 = k - nl + tl;
    assert(c[k0] == '}');
    let lc = line_end(c, i0 + 1);
    lemma_line_end(c, i0 + 1);
    if lc <= k0 {
        assert(c[lc] == '\n');
        assert(t1[lc + nl - tl] == c[lc]);
        assert(r[lc + nl - tl] != '\n');
    }
    let h = |m: int| c[m] == '}';
    assert(h(k0));
    lemma_last_index(i0 + 2, lc, h);
}

/// A record whose text holds exactly one bracketed token, its own status
/// token, still holds exactly one after it is moved to `next` on date `d`:
/// the token of `next`, which it reads back as.
pub proof fn lemma_single_token_round_trip(c: Seq<char>, old: Status, next: Status, d: AdrDate)
    requires
        d.wf(),
        token_is_read(c, old),
        status_span(c) matches Some((p, _)) && single_token_at(c, p),
    ensures
        status_of(stamped(status_replaced(c, old, next), d)) == next,
        status_span(stamped(status_replaced(c, old, next), d)) matches Some((p, q))
            && single_token_at(stamped(status_replaced(c, old, next), d), p) && stamped(
            status_replaced(c, old, next),
            d,
        ).subrange(p, q + 1) == braced(keyword(next)),
{
    lemma_applied_status_parses(c, old, next, d);
    let (p, q) = status_span(c)->0;
    let ko = keyword(old);
    let kn = keyword(next);
    let nw = braced(kn);
    let nl = nw.len() as int;
    lemma_keyword_letters(old);
    lemma_keyword_letters(next);
    lemma_token_is_first(c, ko, p, q);
    let t1 = splice(c, p, q + 1, nw);
    assert(status_replaced(c, old, next) == t1);
    let r = stamped(t1, d);
    lemma_stamped_agrees(t1, d);
    lemma_span_after(c, ko, kn, p, q, r);
    let sr = |i: int| status_start(r, i);
    lemma_first_index(r.len() as int, sr, 0);
    assert(sr(p));
    assert forall|i: int| #[trigger] status_start(r, i) implies i == p by {
        if i < p {
            assert(!sr(i));
        } else if p < i < p + nl {
            assert(r.subrange(p, p + nl)[i - p] == r[i]);
            lemma_braced_chars(kn, i - p);
        } else if i >= p + nl {
            lemma_no_token_after(c, ko, kn, p, q, r, i);
        }
    }
    assert(r.subrange(p, p + nl) == nw);
}

} // verus!
