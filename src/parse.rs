//! The record format: where a record's title, date, status, tags and
//! sequence number are found in its text and file name.

use vstd::prelude::*;
use crate::status::{Status, status_of_keyword};
use crate::text::{
    first_index, last_index, lemma_first_index, lemma_first_index_is, lemma_last_index, occurs_at, trim, chars_of,
    slice_of, trim_vec, string_of, matches_at,
};

verus! {

/// The end of the line that holds index `j`: the first newline at or after
/// `j`, or the end of the text.
pub open spec fn line_end(c: Seq<char>, j: int) -> int {
    match first_index(c.len() as int, |k: int| c[k] == '\n', j) {
        Some(k) => k,
        None => c.len() as int,
    }
}

/// `line_end` ends the line: no newline before it, and a newline at it
/// unless the text ends there.
pub proof fn lemma_line_end(c: Seq<char>, j: int)
    requires
        0 <= j <= c.len(),
    ensures
        j <= line_end(c, j) <= c.len(),
        line_end(c, j) < c.len() ==> c[line_end(c, j)] == '\n',
        forall|k: int| j <= k < line_end(c, j) ==> c[k] != '\n',
{
    let p = |k: int| c[k] == '\n';
    lemma_first_index(c.len() as int, p, j);
    assert forall|k: int| j <= k < line_end(c, j) implies c[k] != '\n' by {
        assert(!p(k));
    }
}

/// `m` ends the line that holds `j`.
pub proof fn lemma_line_end_is(c: Seq<char>, j: int, m: int)
    requires
        0 <= j <= m <= c.len(),
        m < c.len() ==> c[m] == '\n',
        forall|k: int| j <= k < m ==> #[trigger] c[k] != '\n',
    ensures
        line_end(c, j) == m,
{
    let p = |k: int| c[k] == '\n';
    if m < c.len() {
        lemma_first_index_is(c.len() as int, p, j, m);
    } else {
        crate::text::lemma_first_index_none(c.len() as int, p, j);
    }
}

/// A heading `= <text>` starts at `i`, with at least one character of text
/// before the end of the line.
pub open spec fn title_start(c: Seq<char>, i: int) -> bool {
    0 <= i && i + 2 < c.len() && c[i] == '=' && c[i + 1] == ' ' && c[i + 2] != '\n'
}

/// The title: the rest of the line after the first heading marker; `"None"`
/// when there is no heading.
pub open spec fn title_of(c: Seq<char>) -> Seq<char> {
    match first_index(c.len() as int, |i: int| title_start(c, i), 0) {
        Some(i) => c.subrange(i + 2, line_end(c, i + 2)),
        None => "None"@,
    }
}

pub open spec fn is_digit(ch: char) -> bool {
    '0' <= ch && ch <= '9'
}

/// A date `YYYY-MM-DD` starts at `i`.
pub open spec fn date_at(c: Seq<char>, i: int) -> bool {
    &&& 0 <= i && i + 10 <= c.len()
    &&& is_digit(c[i]) && is_digit(c[i + 1]) && is_digit(c[i + 2]) && is_digit(c[i + 3])
    &&& c[i + 4] == '-' && is_digit(c[i + 5]) && is_digit(c[i + 6])
    &&& c[i + 7] == '-' && is_digit(c[i + 8]) && is_digit(c[i + 9])
}

/// Where the first date of the text starts.
pub open spec fn first_date(c: Seq<char>) -> Option<int> {
    first_index(c.len() as int, |i: int| date_at(c, i), 0)
}

/// The first date of the text, anywhere in it; `"None"` when there is none.
pub open spec fn date_of(c: Seq<char>) -> Seq<char> {
    match first_date(c) {
        Some(i) => c.subrange(i, i + 10),
        None => "None"@,
    }
}

/// The closing brace that pairs with an opening brace at `i`: the last `}`
/// on the same line, at least two characters on.
pub open spec fn status_close(c: Seq<char>, i: int) -> Option<int> {
    last_index(i + 2, line_end(c, i + 1), |k: int| c[k] == '}')
}

/// A bracketed token `{...}` starts at `i`.
pub open spec fn status_start(c: Seq<char>, i: int) -> bool {
    0 <= i < c.len() && c[i] == '{' && status_close(c, i) is Some
}

/// The braces of the first bracketed token.
pub open spec fn status_span(c: Seq<char>) -> Option<(int, int)> {
    match first_index(c.len() as int, |i: int| status_start(c, i), 0) {
        Some(i) => Some((i, status_close(c, i)->0)),
        None => None,
    }
}

/// The status named by the first bracketed token, trimmed; `Status::NONE`
/// when there is no such token or it names no status.
pub open spec fn status_of(c: Seq<char>) -> Status {
    match status_span(c) {
        Some((p, q)) => status_of_keyword(trim(c.subrange(p + 1, q))),
        None => Status::NONE,
    }
}

/// A tag marker `[tags]#` starts at `i`.
pub open spec fn tag_open(c: Seq<char>, i: int) -> bool {
    occurs_at(c, "[tags]#"@, i)
}

/// The first `#` after the marker that starts at `i`.
pub open spec fn tag_close(c: Seq<char>, i: int) -> Option<int> {
    first_index(c.len() as int, |k: int| c[k] == '#', i + 7)
}

/// A complete tag `[tags]#<text>#`, with non-empty text, starts at `i`.
pub open spec fn tag_at(c: Seq<char>, i: int) -> bool {
    &&& tag_open(c, i)
    &&& tag_close(c, i) is Some
    &&& i + 7 < tag_close(c, i)->0 < c.len()
}

/// The texts of the tags found from index `i` on, left to right, each search
/// resuming after the previous tag.
pub open spec fn tags_from(c: Seq<char>, i: int) -> Seq<Seq<char>>
    decreases c.len() - i,
{
    if i < 0 || i >= c.len() {
        Seq::empty()
    } else if tag_at(c, i) {
        seq![c.subrange(i + 7, tag_close(c, i)->0)] + tags_from(c, tag_close(c, i)->0 + 1)
    } else {
        tags_from(c, i + 1)
    }
}

/// The texts of all tags of a record, untrimmed.
pub open spec fn tag_texts(c: Seq<char>) -> Seq<Seq<char>> {
    tags_from(c, 0)
}

/// The tags of a record, each trimmed, in order, repeats kept.
pub open spec fn tags_of(c: Seq<char>) -> Seq<Seq<char>> {
    tag_texts(c).map_values(|t: Seq<char>| trim(t))
}

/// The flat display form of tags: `#<text> ` for each.
pub open spec fn tags_line(ts: Seq<Seq<char>>) -> Seq<char>
    decreases ts.len(),
{
    if ts.len() == 0 {
        Seq::empty()
    } else {
        tags_line(ts.drop_last()) + seq!['#'] + ts.last() + seq![' ']
    }
}

/// The number written in decimal digits by `s`.
pub open spec fn decimal_value(s: Seq<char>) -> nat
    decreases s.len(),
{
    if s.len() == 0 {
        0
    } else {
        decimal_value(s.drop_last()) * 10 + (s.last() as int - '0' as int) as nat
    }
}

/// How many decimal digits `name` starts with.
pub open spec fn leading_digits(name: Seq<char>) -> int {
    match first_index(name.len() as int, |k: int| !is_digit(name[k]), 0) {
        Some(k) => k,
        None => name.len() as int,
    }
}

/// The sequence number of a file name: the digits it starts with when a
/// hyphen follows them; `0` when there are none, or when the number does not
/// fit in `usize`.
pub open spec fn seq_id_of(name: Seq<char>) -> usize {
    let k = leading_digits(name);
    if 0 < k < name.len() && name[k] == '-' && decimal_value(name.subrange(0, k)) <= usize::MAX {
        decimal_value(name.subrange(0, k)) as usize
    } else {
        0
    }
}

/// The last component of a `/`-separated path.
pub open spec fn file_name_of(p: Seq<char>) -> Seq<char> {
    match last_index(0, p.len() as int, |k: int| p[k] == '/') {
        Some(k) => p.subrange(k + 1, p.len() as int),
        None => p,
    }
}

/// The end of the line that holds index `j`.
pub fn find_line_end(c: &Vec<char>, j: usize) -> (r: usize)
    requires
        j <= c.len(),
    ensures
        r as int == line_end(c@, j as int),
        j <= r <= c.len(),
{
    proof {
        lemma_line_end(c@, j as int);
    }
    let ghost p = |k: int| c@[k] == '\n';
    let mut k: usize = j;
    while k < c.len() && c[k] != '\n'
        invariant
            j <= k,
            p == (|k: int| c@[k] == '\n'),
            first_index(c@.len() as int, p, j as int) == first_index(c@.len() as int, p, k as int),
        decreases c.len() - k,
    {
        k = k + 1;
    }
    if k < c.len() {
        k
    } else {
        c.len()
    }
}

/// The title of a record's text.
pub fn parse_title(c: &Vec<char>) -> (r: Vec<char>)
    ensures
        r@ == title_of(c@),
{
    let ghost p = |i: int| title_start(c@, i);
    let mut i: usize = 0;
    while i < c.len()
        invariant
            i <= c.len(),
            p == (|i: int| title_start(c@, i)),
            first_index(c@.len() as int, p, 0) == first_index(c@.len() as int, p, i as int),
        decreases c.len() - i,
    {
        if c.len() - i > 2 && c[i] == '=' && c[i + 1] == ' ' && c[i + 2] != '\n' {
            let e = find_line_end(c, i + 2);
            proof {
                lemma_first_index(c@.len() as int, |k: int| c@[k] == '\n', i + 2);
            }
            return slice_of(c, i + 2, e);
        }
        i = i + 1;
    }
    chars_of("None")
}

/// Whether a date `YYYY-MM-DD` starts at `i`.
pub fn is_date_at(c: &Vec<char>, i: usize) -> (r: bool)
    ensures
        r == date_at(c@, i as int),
{
    i <= c.len() && c.len() - i >= 10 && '0' <= c[i] && c[i] <= '9' && '0' <= c[i + 1] && c[i
        + 1] <= '9' && '0' <= c[i + 2] && c[i + 2] <= '9' && '0' <= c[i + 3] && c[i + 3] <= '9'
        && c[i + 4] == '-' && '0' <= c[i + 5] && c[i + 5] <= '9' && '0' <= c[i + 6] && c[i + 6]
        <= '9' && c[i + 7] == '-' && '0' <= c[i + 8] && c[i + 8] <= '9' && '0' <= c[i + 9] && c[i
        + 9] <= '9'
}

/// Where the first date of the text starts.
pub fn find_date(c: &Vec<char>) -> (r: Option<usize>)
    ensures
        match r {
            Some(i) => first_date(c@) == Some(i as int) && i + 10 <= c@.len(),
            None => first_date(c@) is None,
        },
{
    let ghost p = |i: int| date_at(c@, i);
    let mut i: usize = 0;
    while i < c.len()
        invariant
            p == (|i: int| date_at(c@, i)),
            first_index(c@.len() as int, p, 0) == first_index(c@.len() as int, p, i as int),
        decreases c.len() - i,
    {
        if is_date_at(c, i) {
            return Some(i);
        }
        i = i + 1;
    }
    None
}

/// The date of a record's text.
pub fn parse_date(c: &Vec<char>) -> (r: Vec<char>)
    ensures
        r@ == date_of(c@),
{
    match find_date(c) {
        Some(i) => {
            assert(i + 10 <= c.len());
            slice_of(c, i, i + 10)
        },
        None => chars_of("None"),
    }
}

/// The closing brace for an opening brace at `i`.
pub fn find_status_close(c: &Vec<char>, i: usize) -> (r: Option<usize>)
    requires
        i < c.len(),
    ensures
        match r {
            Some(q) => status_close(c@, i as int) == Some(q as int) && i + 2 <= q < c.len(),
            None => status_close(c@, i as int) is None,
        },
{
    let e = find_line_end(c, i + 1);
    let ghost p = |k: int| c@[k] == '}';
    let mut h: usize = e;
    while h > i && h - i > 2 && c[h - 1] != '}'
        invariant
            i < c.len(),
            h <= c.len(),
            i + 1 <= e <= c.len(),
            p == (|k: int| c@[k] == '}'),
            last_index(i + 2, e as int, p) == last_index(i + 2, h as int, p),
        decreases h,
    {
        h = h - 1;
    }
    if h > i && h - i > 2 {
        Some(h - 1)
    } else {
        None
    }
}

/// The braces of the first bracketed token.
pub fn find_status_span(c: &Vec<char>) -> (r: Option<(usize, usize)>)
    ensures
        match r {
            Some((p, q)) => status_span(c@) == Some((p as int, q as int)) && p + 2 <= q < c.len(),
            None => status_span(c@) is None,
        },
{
    let ghost s = |i: int| status_start(c@, i);
    let mut i: usize = 0;
    while i < c.len()
        invariant
            s == (|i: int| status_start(c@, i)),
            first_index(c@.len() as int, s, 0) == first_index(c@.len() as int, s, i as int),
        decreases c.len() - i,
    {
        if c[i] == '{' {
            match find_status_close(c, i) {
                Some(q) => {
                    return Some((i, q));
                },
                None => {},
            }
        }
        i = i + 1;
    }
    None
}

/// The status of a record's text.
pub fn parse_status(c: &Vec<char>) -> (r: Status)
    ensures
        r == status_of(c@),
{
    match find_status_span(c) {
        Some((p, q)) => {
            proof {
                lemma_first_index(c@.len() as int, |i: int| status_start(c@, i), 0);
                lemma_last_index(p + 2, line_end(c@, p + 1), |k: int| c@[k] == '}');
                lemma_line_end(c@, p + 1);
            }
            assert(p + 1 <= q && q <= c.len());
            let inner = slice_of(c, p + 1, q);
            let word = trim_vec(&inner);
            Status::from_str(string_of(word.as_slice()))
        },
        None => Status::NONE,
    }
}

/// The first `#` at or after `j`.
fn find_hash(c: &Vec<char>, j: usize) -> (r: usize)
    requires
        j <= c.len(),
    ensures
        j <= r <= c.len(),
        r < c.len() ==> first_index(c@.len() as int, |k: int| c@[k] == '#', j as int) == Some(
            r as int,
        ),
        r == c.len() ==> first_index(c@.len() as int, |k: int| c@[k] == '#', j as int) is None,
{
    let ghost p = |k: int| c@[k] == '#';
    let mut k: usize = j;
    while k < c.len() && c[k] != '#'
        invariant
            j <= k <= c.len(),
            p == (|k: int| c@[k] == '#'),
            first_index(c@.len() as int, p, j as int) == first_index(c@.len() as int, p, k as int),
        decreases c.len() - k,
    {
        k = k + 1;
    }
    k
}

/// The tags of a record's text: their flat display form, and the tags
/// themselves, trimmed.
pub fn parse_tags(c: &Vec<char>) -> (r: (String, Vec<String>))
    ensures
        r.0@ == tags_line(tag_texts(c@)),
        r.1@.map_values(|t: String| t@) == tags_of(c@),
{
    let marker = chars_of("[tags]#");
    let mut line: Vec<char> = Vec::new();
    let mut tags: Vec<String> = Vec::new();
    let ghost mut seen: Seq<Seq<char>> = Seq::empty();
    let mut i: usize = 0;
    assert(seen + tags_from(c@, 0) =~= tags_from(c@, 0));
    while i < c.len()
        invariant
            marker@ == "[tags]#"@,
            i <= c.len(),
            seen + tags_from(c@, i as int) == tag_texts(c@),
            line@ == tags_line(seen),
            tags@.map_values(|t: String| t@) == seen.map_values(|t: Seq<char>| trim(t)),
        decreases c.len() - i,
    {
        let mut next: usize = i + 1;
        if matches_at(c, &marker, i) {
            proof {
                reveal_strlit("[tags]#");
            }
            let k = find_hash(c, i + 7);
            if k < c.len() && k > i + 7 {
                let text = slice_of(c, i + 7, k);
                let trimmed = trim_vec(&text);
                proof {
                    assert(tag_at(c@, i as int));
                    let rest = tags_from(c@, k + 1);
                    assert(tags_from(c@, i as int) == seq![text@] + rest);
                    assert(seen + (seq![text@] + rest) =~= seen.push(text@) + rest);
                    assert(seen.push(text@).drop_last() =~= seen);
                    assert(seen.push(text@).map_values(|t: Seq<char>| trim(t)) =~= seen.map_values(
                        |t: Seq<char>| trim(t),
                    ).push(trim(text@)));
                    seen = seen.push(text@);
                }
                line.push('#');
                crate::text::push_all(&mut line, &text);
                line.push(' ');
                let ghost old_tags = tags@;
                tags.push(string_of(trimmed.as_slice()));
                assert(tags@.map_values(|t: String| t@) =~= old_tags.map_values(|t: String| t@).push(
                    trimmed@,
                ));
                next = k + 1;
            } else {
                assert(!tag_at(c@, i as int));
            }
        } else {
            assert(!tag_at(c@, i as int));
        }
        i = next;
    }
    assert(seen + tags_from(c@, i as int) =~= seen);
    (string_of(line.as_slice()), tags)
}

/// A longer run of digits never has a smaller value.
pub proof fn lemma_decimal_value_grows(s: Seq<char>, j: int, k: int)
    requires
        0 <= j <= k <= s.len(),
        forall|m: int| 0 <= m < k ==> #[trigger] is_digit(s[m]),
    ensures
        decimal_value(s.subrange(0, j)) <= decimal_value(s.subrange(0, k)),
    decreases k - j,
{
    if j < k {
        lemma_decimal_value_grows(s, j, k - 1);
        assert(s.subrange(0, k).drop_last() =~= s.subrange(0, k - 1));
        assert(is_digit(s[k - 1]));
    }
}

/// The sequence number of a file name.
pub fn get_seq_id_from_name(name: &str) -> (r: usize)
    ensures
        r == seq_id_of(name@),
{
    let c = chars_of(name);
    let ghost p = |m: int| !is_digit(c@[m]);
    let mut k: usize = 0;
    while k < c.len() && '0' <= c[k] && c[k] <= '9'
        invariant
            k <= c.len(),
            p == (|m: int| !is_digit(c@[m])),
            first_index(c@.len() as int, p, 0) == first_index(c@.len() as int, p, k as int),
            forall|m: int| 0 <= m < k ==> #[trigger] is_digit(c@[m]),
        decreases c.len() - k,
    {
        k = k + 1;
    }
    assert(leading_digits(c@) == k);
    if k == 0 || k >= c.len() || c[k] != '-' {
        return 0;
    }
    let mut v: usize = 0;
    let mut j: usize = 0;
    while j < k
        invariant
            j <= k < c.len(),
            c@ == name@,
            leading_digits(c@) == k,
            c@[k as int] == '-',
            forall|m: int| 0 <= m < k ==> #[trigger] is_digit(c@[m]),
            v == decimal_value(c@.subrange(0, j as int)),
        decreases k - j,
    {
        assert(is_digit(c@[j as int]));
        let d: usize = (c[j] as u32 - '0' as u32) as usize;
        assert(c@.subrange(0, j + 1).drop_last() =~= c@.subrange(0, j as int));
        assert(decimal_value(c@.subrange(0, j + 1)) == v * 10 + d);
        if v > (usize::MAX - d) / 10 {
            assert(v * 10 + d > usize::MAX) by (nonlinear_arith)
                requires
                    v > (usize::MAX - d) / 10,
                    d <= 9,
            ;
            proof {
                lemma_decimal_value_grows(c@, j + 1, k as int);
            }
            return 0;
        }
        assert(v * 10 + d <= usize::MAX) by (nonlinear_arith)
            requires
                v <= (usize::MAX - d) / 10,
                d <= 9,
        ;
        v = v * 10 + d;
        j = j + 1;
    }
    v
}

/// The last component of a `/`-separated path.
pub fn file_name_from_path(path: &Vec<char>) -> (r: Vec<char>)
    ensures
        r@ == file_name_of(path@),
{
    let ghost p = |k: int| path@[k] == '/';
    let mut h: usize = path.len();
    while h > 0 && path[h - 1] != '/'
        invariant
            h <= path.len(),
            p == (|k: int| path@[k] == '/'),
            last_index(0, path@.len() as int, p) == last_index(0, h as int, p),
        decreases h,
    {
        h = h - 1;
    }
    if h > 0 {
        slice_of(path, h, path.len())
    } else {
        slice_of(path, 0, path.len())
    }
}

} // verus!
