//! The pure side of a repository of records: ordering, numbering, naming
//! new records, choosing which directory entries are records, and tag counts.

use vstd::prelude::*;
use crate::adr::Adr;
use crate::config::AdrToolConfig;
use crate::text::{first_index, matches_at};
use crate::date::{digit, digit_char};
use crate::text::{chars_of, string_of, push_all, slice_of};

verus! {

/// The records are in ascending order of sequence number.
pub open spec fn sorted_by_id(s: Seq<Adr>) -> bool {
    forall|i: int, j: int| 0 <= i < j < s.len() ==> s[i].file_id <= s[j].file_id
}

/// `r` is `s` rearranged by `perm`: `r[k]` is `s[perm[k]]`, each index of
/// `s` used at most once, and records with equal numbers in input order.
pub open spec fn stable_arrangement(r: Seq<Adr>, s: Seq<Adr>, perm: Seq<int>) -> bool {
    &&& perm.len() == r.len()
    &&& forall|k: int| 0 <= k < r.len() ==> 0 <= #[trigger] perm[k] < s.len() && r[k] == s[perm[k]]
    &&& forall|i: int, j: int| 0 <= i < j < r.len() ==> perm[i] != perm[j]
    &&& forall|i: int, j: int|
        0 <= i < j < r.len() && r[i].file_id == r[j].file_id ==> perm[i] < perm[j]
}

/// Orders records by ascending sequence number; records with equal numbers
/// keep their relative order.
pub fn sort_by_id(adrs: Vec<Adr>) -> (r: Vec<Adr>)
    ensures
        sorted_by_id(r@),
        r@.to_multiset() == adrs@.to_multiset(),
        exists|perm: Seq<int>| #[trigger] stable_arrangement(r@, adrs@, perm),
{
    broadcast use vstd::seq_lib::group_to_multiset_ensures;

    let ghost input = adrs@;
    let mut rest = adrs;
    let mut r: Vec<Adr> = Vec::new();
    let ghost mut perm: Seq<int> = Seq::empty();
    while rest.len() > 0
        invariant
            sorted_by_id(r@),
            rest@.to_multiset().add(r@.to_multiset()) == input.to_multiset(),
            rest@ == input.subrange(0, rest@.len() as int),
            rest@.len() <= input.len(),
            stable_arrangement(r@, input, perm),
            forall|k: int| 0 <= k < r@.len() ==> rest@.len() <= #[trigger] perm[k],
        decreases rest.len(),
    {
        let ghost before = rest@;
        let x = rest.pop().unwrap();
        let ghost idx = rest@.len() as int;
        proof {
            assert(before =~= rest@.push(x));
            assert(rest@ =~= input.subrange(0, idx));
            assert(x == input[idx]);
        }
        let mut p: usize = 0;
        while p < r.len() && r[p].file_id < x.file_id
            invariant
                p <= r.len(),
                forall|k: int| 0 <= k < p ==> r@[k].file_id < x.file_id,
            decreases r.len() - p,
        {
            p = p + 1;
        }
        let ghost old_r = r@;
        let ghost old_perm = perm;
        r.insert(p, x);
        proof {
            perm = old_perm.insert(p as int, idx);
            assert forall|i: int, j: int| 0 <= i < j < r@.len() implies r@[i].file_id
                <= r@[j].file_id by {
                if j < p {
                } else if j == p {
                } else if i < p {
                    assert(old_r[i].file_id <= old_r[j - 1].file_id);
                } else if i == p {
                    assert(x.file_id <= old_r[p as int].file_id);
                    assert(old_r[p as int].file_id <= old_r[j - 1].file_id || p == j - 1);
                } else {
                    assert(old_r[i - 1].file_id <= old_r[j - 1].file_id);
                }
            }
            assert forall|k: int| 0 <= k < r@.len() implies 0 <= #[trigger] perm[k] < input.len()
                && r@[k] == input[perm[k]] && rest@.len() <= perm[k] by {
                if k < p {
                    assert(old_perm[k] == perm[k]);
                } else if k > p {
                    assert(old_perm[k - 1] == perm[k]);
                }
            }
            assert forall|i: int, j: int| 0 <= i < j < r@.len() implies perm[i] != perm[j] by {
                if i < p && j > p {
                    assert(old_perm[j - 1] == perm[j]);
                } else if i > p {
                    assert(old_perm[i - 1] == perm[i]);
                    assert(old_perm[j - 1] == perm[j]);
                } else if i == p {
                    assert(old_perm[j - 1] == perm[j]);
                } else if j == p {
                } else {
                }
            }
            assert forall|i: int, j: int|
                0 <= i < j < r@.len() && r@[i].file_id == r@[j].file_id implies perm[i]
                < perm[j] by {
                if j < p {
                } else if j == p {
                    assert(old_r[i].file_id < x.file_id);
                } else if i < p {
                    assert(old_r[i].file_id <= old_r[p as int].file_id);
                    assert(old_r[p as int].file_id <= old_r[j - 1].file_id || p == j - 1);
                    assert(x.file_id <= old_r[p as int].file_id);
                    assert(false);
                } else if i == p {
                    assert(old_perm[j - 1] == perm[j]);
                } else {
                    assert(old_perm[i - 1] == perm[i]);
                    assert(old_perm[j - 1] == perm[j]);
                }
            }
            broadcast use vstd::multiset::group_multiset_axioms;

            vstd::seq_lib::to_multiset_insert(old_r, p as int, x);
            vstd::seq_lib::to_multiset_build(rest@, x);
            assert(rest@.to_multiset().add(r@.to_multiset()) =~= before.to_multiset().add(
                old_r.to_multiset(),
            ));
        }
    }
    assert(stable_arrangement(r@, input, perm));
    r
}

/// The greatest sequence number among the records; `0` for none.
pub open spec fn max_id(s: Seq<Adr>) -> usize
    decreases s.len(),
{
    if s.len() == 0 {
        0
    } else {
        let m = max_id(s.drop_last());
        if s.last().file_id > m {
            s.last().file_id
        } else {
            m
        }
    }
}

/// `max_id` bounds every sequence number and is one of them, or `0`.
pub proof fn lemma_max_id(s: Seq<Adr>)
    ensures
        forall|i: int| 0 <= i < s.len() ==> #[trigger] s[i].file_id <= max_id(s),
        s.len() == 0 ==> max_id(s) == 0,
        s.len() > 0 ==> exists|i: int| 0 <= i < s.len() && #[trigger] s[i].file_id == max_id(s),
    decreases s.len(),
{
    if s.len() > 0 {
        lemma_max_id(s.drop_last());
        assert forall|i: int| 0 <= i < s.len() implies #[trigger] s[i].file_id <= max_id(s) by {
            if i < s.len() - 1 {
                assert(s.drop_last()[i] == s[i]);
            }
        }
        if s.len() > 1 && max_id(s) == max_id(s.drop_last()) {
            let i = choose|i: int| 0 <= i < s.len() - 1 && #[trigger] s.drop_last()[i].file_id
                == max_id(s.drop_last());
            assert(s[i] == s.drop_last()[i]);
        } else {
            assert(s[s.len() - 1].file_id == max_id(s) || max_id(s) == 0);
        }
    }
}

/// The greatest sequence number among the records, `0` when there are none.
pub fn get_last_seq_id(adrs: Vec<Adr>) -> (r: usize)
    ensures
        r == max_id(adrs@),
        forall|i: int| 0 <= i < adrs@.len() ==> #[trigger] adrs@[i].file_id <= r,
        adrs@.len() > 0 ==> exists|i: int| 0 <= i < adrs@.len() && #[trigger] adrs@[i].file_id == r,
{
    proof {
        lemma_max_id(adrs@);
    }
    max_seq_id(&adrs)
}

/// The greatest sequence number among the records.
fn max_seq_id(adrs: &Vec<Adr>) -> (r: usize)
    ensures
        r == max_id(adrs@),
{
    let mut m: usize = 0;
    let mut i: usize = 0;
    while i < adrs.len()
        invariant
            i <= adrs.len(),
            m == max_id(adrs@.subrange(0, i as int)),
        decreases adrs.len() - i,
    {
        assert(adrs@.subrange(0, i + 1).drop_last() =~= adrs@.subrange(0, i as int));
        if adrs[i].file_id > m {
            m = adrs[i].file_id;
        }
        i = i + 1;
    }
    assert(adrs@.subrange(0, adrs@.len() as int) =~= adrs@);
    m
}

/// `n` written in decimal, without leading zeros.
pub open spec fn decimal_text(n: nat) -> Seq<char>
    decreases n,
{
    if n < 10 {
        seq![digit(n as u32)]
    } else {
        decimal_text(n / 10).push(digit((n % 10) as u32))
    }
}

/// `s` preceded by enough zeros to be `width` characters long.
pub open spec fn zero_padded(s: Seq<char>, width: nat) -> Seq<char> {
    if s.len() >= width {
        s
    } else {
        Seq::new((width - s.len()) as nat, |i: int| '0') + s
    }
}

/// `n` written in decimal.
pub fn decimal_chars(n: usize) -> (r: Vec<char>)
    ensures
        r@ == decimal_text(n as nat),
    decreases n,
{
    if n < 10 {
        let mut r: Vec<char> = Vec::new();
        r.push(digit_char(n as u32));
        assert(r@ =~= decimal_text(n as nat));
        r
    } else {
        let mut r = decimal_chars(n / 10);
        r.push(digit_char((n % 10) as u32));
        r
    }
}

/// `s` preceded by zeros up to `width` characters.
pub fn pad_with_zeros(s: &Vec<char>, width: usize) -> (r: Vec<char>)
    ensures
        r@ == zero_padded(s@, width as nat),
{
    let mut r: Vec<char> = Vec::new();
    if s.len() < width {
        let mut k: usize = 0;
        while k < width - s.len()
            invariant
                s.len() < width,
                k <= width - s.len(),
                r@ == Seq::new(k as nat, |i: int| '0'),
            decreases width - s.len() - k,
        {
            r.push('0');
            k = k + 1;
            assert(r@ =~= Seq::new(k as nat, |i: int| '0'));
        }
    }
    push_all(&mut r, s);
    assert(r@ =~= zero_padded(s@, width as nat));
    r
}

/// The number a new record gets: one more than the greatest among `adrs`,
/// zero-padded to `width` digits. `None` when that number does not fit in
/// `usize`.
pub fn next_seq_id(adrs: &Vec<Adr>, width: usize) -> (r: Option<String>)
    ensures
        r is Some <==> max_id(adrs@) < usize::MAX,
        r matches Some(t) ==> t@ == zero_padded(decimal_text((max_id(adrs@) + 1) as nat), width as nat),
{
    let m = max_seq_id(adrs);
    if m == usize::MAX {
        return None;
    }
    let digits = decimal_chars(m + 1);
    let padded = pad_with_zeros(&digits, width);
    Some(string_of(padded.as_slice()))
}

/// The slug of a title: ASCII letters in lower case, spaces as hyphens.
pub open spec fn slug_of(title: Seq<char>) -> Seq<char> {
    title.map_values(
        |c: char|
            if c == ' ' {
                '-'
            } else if 'A' <= c && c <= 'Z' {
                (((c as u32) + 32) as u8) as char
            } else {
                c
            },
    )
}

/// The slug of a title.
pub fn slug(title: &str) -> (r: Vec<char>)
    ensures
        r@ == slug_of(title@),
{
    let c = chars_of(title);
    let mut r: Vec<char> = Vec::new();
    let mut i: usize = 0;
    while i < c.len()
        invariant
            i <= c.len(),
            c@ == title@,
            r@ == slug_of(c@.subrange(0, i as int)),
        decreases c.len() - i,
    {
        let ch = c[i];
        let out = if ch == ' ' {
            '-'
        } else if 'A' <= ch && ch <= 'Z' {
            (((ch as u32) + 32) as u8) as char
        } else {
            ch
        };
        r.push(out);
        i = i + 1;
        assert(r@ =~= slug_of(c@.subrange(0, i as int)));
    }
    assert(c@.subrange(0, c@.len() as int) =~= c@);
    r
}

/// The extension of record files.
pub const EXTENSION: &'static str = ".adoc";

/// The name a new record's file gets, without extension: the next sequence
/// number and a hyphen when numbering is on, then the slug of the title.
pub open spec fn decision_name(cfg: AdrToolConfig, title: Seq<char>, existing: Seq<Adr>) -> Seq<
    char,
> {
    if cfg.use_id_prefix {
        zero_padded(decimal_text((max_id(existing) + 1) as nat), cfg.id_prefix_width as nat)
            + seq!['-'] + slug_of(title)
    } else {
        slug_of(title)
    }
}

/// The name for a new record titled `name`, numbered after the records in
/// `existing` when the settings ask for numbering. `None` when the next number
/// does not fit in `usize`.
pub fn format_decision_name(cfg: AdrToolConfig, name: &str, existing: &Vec<Adr>) -> (r: Option<
    String,
>)
    ensures
        r is Some <==> (!cfg.use_id_prefix || max_id(existing@) < usize::MAX),
        r matches Some(t) ==> t@ == decision_name(cfg, name@, existing@),
{
    let s = slug(name);
    if cfg.use_id_prefix {
        match next_seq_id(existing, cfg.id_prefix_width) {
            Some(prefix) => {
                let mut r = chars_of(prefix.as_str());
                r.push('-');
                push_all(&mut r, &s);
                Some(string_of(r.as_slice()))
            },
            None => None,
        }
    } else {
        Some(string_of(s.as_slice()))
    }
}

/// `s` ends with `suffix`.
pub open spec fn ends_with(s: Seq<char>, suffix: Seq<char>) -> bool {
    s.len() >= suffix.len() && s.subrange(s.len() - suffix.len(), s.len() as int) == suffix
}

/// A directory entry named `name` is scanned: it is not hidden, and it is a
/// directory or a record file.
pub open spec fn is_scanned(name: Seq<char>, is_dir: bool) -> bool {
    &&& !(name.len() > 0 && name[0] == '.')
    &&& (is_dir || ends_with(name, EXTENSION@))
}

/// Whether a directory entry named `file_name` is scanned for records.
pub fn is_ok(file_name: &str, is_dir: bool) -> (r: bool)
    ensures
        r == is_scanned(file_name@, is_dir),
{
    let c = chars_of(file_name);
    if c.len() > 0 && c[0] == '.' {
        return false;
    }
    if is_dir {
        return true;
    }
    let ext = chars_of(EXTENSION);
    if c.len() < ext.len() {
        return false;
    }
    matches_at(&c, &ext, c.len() - ext.len())
}

/// What `Path::strip_prefix` leaves of the path `full` once the path `base`
/// is taken off its front, comparing whole components; `None` when `full`
/// does not start with `base`.
pub uninterp spec fn path_suffix(full: Seq<char>, base: Seq<char>) -> Option<Seq<char>>;

/// Relies on `std::path::Path::strip_prefix`: `Ok` with the rest of `full`
/// when `base` is a component-wise prefix of it, `Err` otherwise. The rest is
/// a part of `full`, so its text converts back without loss.
#[verifier::external_body]
fn strip_path_prefix(full: &str, base: &str) -> (r: Option<String>)
    ensures
        match r {
            Some(rest) => path_suffix(full@, base@) == Some(rest@),
            None => path_suffix(full@, base@) is None,
        },
{
    std::path::Path::new(full).strip_prefix(base).ok().map(|p| p.to_string_lossy().into_owned())
}

/// The part of `full` relative to `base`; `full` itself when it does not lie
/// under `base`.
pub open spec fn relative_part(base: Seq<char>, full: Seq<char>) -> Seq<char> {
    match path_suffix(full, base) {
        Some(rest) => rest,
        None => full,
    }
}

/// Splits `full_path` into `base_path` and the part relative to it, the way
/// paths compare: component by component.
pub fn split_path(base_path: &str, full_path: &str) -> (r: (String, String))
    ensures
        r.0@ == base_path@,
        r.1@ == relative_part(base_path@, full_path@),
{
    let stripped = strip_path_prefix(full_path, base_path);
    split_with(base_path, full_path, stripped)
}

/// Splits `full_path` given what stripping `base_path` off it left:
/// `base_path` and that rest, or `full_path` itself when nothing was left
/// because it does not lie under `base_path`.
pub fn split_with(base_path: &str, full_path: &str, stripped: Option<String>) -> (r: (
    String,
    String,
))
    ensures
        r.0@ == base_path@,
        r.1@ == match stripped {
            Some(rest) => rest@,
            None => full_path@,
        },
{
    let base = String::from_str(base_path);
    match stripped {
        Some(rest) => (base, rest),
        None => (base, String::from_str(full_path)),
    }
}

/// The tags of all records, record by record, in order.
pub open spec fn all_tags(adrs: Seq<Adr>) -> Seq<Seq<char>>
    decreases adrs.len(),
{
    if adrs.len() == 0 {
        Seq::empty()
    } else {
        all_tags(adrs.drop_last()) + adrs.last().tags_array@.map_values(|t: String| t@)
    }
}

/// How many times `t` occurs in `ts`.
pub open spec fn occurrences(ts: Seq<Seq<char>>, t: Seq<char>) -> nat
    decreases ts.len(),
{
    if ts.len() == 0 {
        0
    } else {
        occurrences(ts.drop_last(), t) + if ts.last() == t {
            1nat
        } else {
            0nat
        }
    }
}

/// A tag occurs no more often than there are tags.
proof fn lemma_occurrences_bounded(ts: Seq<Seq<char>>, t: Seq<char>)
    ensures
        occurrences(ts, t) <= ts.len(),
    decreases ts.len(),
{
    if ts.len() > 0 {
        lemma_occurrences_bounded(ts.drop_last(), t);
    }
}

/// The tags of the first `a` records are no more than those of the first `b`.
proof fn lemma_all_tags_grow(s: Seq<Adr>, a: int, b: int)
    requires
        0 <= a <= b <= s.len(),
    ensures
        all_tags(s.subrange(0, a)).len() <= all_tags(s.subrange(0, b)).len(),
    decreases b - a,
{
    if a < b {
        lemma_all_tags_grow(s, a, b - 1);
        assert(s.subrange(0, b).drop_last() =~= s.subrange(0, b - 1));
    }
}

/// Counts, for each tag, how many times the records carry it. Each tag
/// present appears once, with its count; a tag no record carries does not
/// appear.
pub fn get_tags_popularity(adrs: &Vec<Adr>) -> (r: Vec<(String, usize)>)
    requires
        all_tags(adrs@).len() <= usize::MAX,
    ensures
        forall|i: int, j: int| 0 <= i < j < r@.len() ==> r@[i].0@ != r@[j].0@,
        forall|i: int|
            0 <= i < r@.len() ==> r@[i].1 == occurrences(all_tags(adrs@), #[trigger] r@[i].0@)
                && r@[i].1 >= 1,
        forall|t: Seq<char>|
            (forall|i: int| 0 <= i < r@.len() ==> #[trigger] r@[i].0@ != t) ==> occurrences(
                all_tags(adrs@),
                t,
            ) == 0,
{
    let mut r: Vec<(String, usize)> = Vec::new();
    let mut a: usize = 0;
    assert(adrs@.subrange(0, 0) =~= Seq::<Adr>::empty());
    while a < adrs.len()
        invariant
            a <= adrs.len(),
            all_tags(adrs@).len() <= usize::MAX,
            forall|i: int, j: int| 0 <= i < j < r@.len() ==> r@[i].0@ != r@[j].0@,
            forall|i: int|
                0 <= i < r@.len() ==> r@[i].1 == occurrences(
                    all_tags(adrs@.subrange(0, a as int)),
                    #[trigger] r@[i].0@,
                ) && r@[i].1 >= 1,
            forall|t: Seq<char>|
                (forall|i: int| 0 <= i < r@.len() ==> #[trigger] r@[i].0@ != t) ==> occurrences(
                    all_tags(adrs@.subrange(0, a as int)),
                    t,
                ) == 0,
        decreases adrs.len() - a,
    {
        let tags = &adrs[a].tags_array;
        let ghost done = all_tags(adrs@.subrange(0, a as int));
        let ghost views = tags@.map_values(|t: String| t@);
        proof {
            lemma_all_tags_grow(adrs@, a + 1, adrs@.len() as int);
            assert(adrs@.subrange(0, adrs@.len() as int) =~= adrs@);
            assert(adrs@.subrange(0, a + 1).drop_last() =~= adrs@.subrange(0, a as int));
            assert(all_tags(adrs@.subrange(0, a + 1)) == done + views);
        }
        let mut k: usize = 0;
        assert(done + views.subrange(0, 0) =~= done);
        proof {
            assert forall|i: int| 0 <= i < r@.len() implies 1 <= #[trigger] r@[i].1 <= done.len() by {
                lemma_occurrences_bounded(done, r@[i].0@);
            }
        }
        while k < tags.len()
            invariant
                k <= tags.len(),
                views == tags@.map_values(|t: String| t@),
                done.len() + views.len() <= usize::MAX,
                forall|i: int, j: int| 0 <= i < j < r@.len() ==> r@[i].0@ != r@[j].0@,
                forall|i: int|
                    0 <= i < r@.len() ==> r@[i].1 == occurrences(
                        done + views.subrange(0, k as int),
                        #[trigger] r@[i].0@,
                    ),
                forall|i: int| 0 <= i < r@.len() ==> 1 <= #[trigger] r@[i].1 <= done.len() + k,
                forall|t: Seq<char>|
                    (forall|i: int| 0 <= i < r@.len() ==> #[trigger] r@[i].0@ != t) ==> occurrences(
                        done + views.subrange(0, k as int),
                        t,
                    ) == 0,
            decreases tags.len() - k,
        {
            let tag = &tags[k];
            let ghost seen = done + views.subrange(0, k as int);
            let ghost next = done + views.subrange(0, k + 1);
            assert(next.drop_last() =~= seen);
            assert(next.last() == tag@);
            let mut i: usize = 0;
            while i < r.len() && r[i].0 != *tag
                invariant
                    i <= r.len(),
                    forall|m: int| 0 <= m < i ==> r@[m].0@ != tag@,
                decreases r.len() - i,
            {
                i = i + 1;
            }
            if i < r.len() {
                let count = r[i].1 + 1;
                let key = r[i].0.clone();
                let ghost old_r = r@;
                r.set(i, (key, count));
                proof {
                    assert forall|t: Seq<char>|
                        (forall|m: int| 0 <= m < r@.len() ==> #[trigger] r@[m].0@ != t) implies occurrences(
                        next,
                        t,
                    ) == 0 by {
                        assert(r@[i as int].0@ != t);
                        assert(old_r[i as int].0@ == tag@);
                        assert forall|m: int| 0 <= m < old_r.len() implies #[trigger] old_r[m].0@
                            != t by {
                            assert(r@[m].0@ != t);
                        }
                        assert(occurrences(seen, t) == 0);
                        assert(occurrences(next, t) == occurrences(seen, t));
                    }
                }
            } else {
                let ghost old_r = r@;
                r.push((tag.clone(), 1));
                proof {
                    assert(occurrences(seen, tag@) == 0);
                    assert forall|t: Seq<char>|
                        (forall|m: int| 0 <= m < r@.len() ==> #[trigger] r@[m].0@ != t) implies occurrences(
                        next,
                        t,
                    ) == 0 by {
                        assert(r@[old_r.len() as int].0@ != t);
                        assert forall|m: int| 0 <= m < old_r.len() implies #[trigger] old_r[m].0@
                            != t by {
                            assert(r@[m].0@ != t);
                        }
                        assert(occurrences(seen, t) == 0);
                        assert(occurrences(next, t) == occurrences(seen, t));
                    }
                }
            }
            k = k + 1;
        }
        assert(views.subrange(0, k as int) =~= views);
        a = a + 1;
    }
    assert(adrs@.subrange(0, a as int) =~= adrs@);
    r
}

} // verus!
