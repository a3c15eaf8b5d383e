//! A record: its text, the fields read from that text, and the mutations
//! that change text and fields together.

use vstd::prelude::*;
use crate::date::AdrDate;
use crate::parse::{
    date_of, file_name_of, first_date, seq_id_of, status_of, status_span, tag_texts, tags_line,
    tags_of, title_of, find_date, find_status_span, file_name_from_path, get_seq_id_from_name, parse_date, parse_status,
    parse_tags, parse_title,
};
use crate::status::{AdrState, State, Status, TransitionStatus, keyword, step};
use crate::text::{
    occurs_at, replace_first, splice, chars_of, string_of, push_all, replace_first_vec, splice_vec,
    matches_at,
};
use crate::round_trip::{lemma_applied_date_reads_back, lemma_applied_status_parses};

verus! {

/// `{<keyword>}`, the token that marks a status in a record.
pub open spec fn braced(k: Seq<char>) -> Seq<char> {
    seq!['{'] + k + seq!['}']
}

/// The text with its first date replaced by `d`; unchanged when it holds no
/// date.
pub open spec fn stamped(c: Seq<char>, d: AdrDate) -> Seq<char> {
    match first_date(c) {
        Some(i) => splice(c, i, i + 10, d.text()),
        None => c,
    }
}

/// The text with the status token of `old` replaced by that of `new`.
pub open spec fn status_replaced(c: Seq<char>, old: Status, new: Status) -> Seq<char> {
    replace_first(c, braced(keyword(old)), braced(keyword(new)))
}

/// The first bracketed token of the text, the one the parser reads, is
/// exactly `{<keyword of s>}`.
pub open spec fn token_is_read(c: Seq<char>, s: Status) -> bool {
    status_span(c) matches Some((p, q)) && c.subrange(p, q + 1) == braced(keyword(s))
}

/// `base` and `file` joined as paths are: an absolute `file` stands alone.
pub open spec fn joined(base: Seq<char>, file: Seq<char>) -> Seq<char> {
    if file.len() > 0 && file[0] == '/' {
        file
    } else if base.len() == 0 {
        file
    } else if base.last() == '/' {
        base + file
    } else {
        base + seq!['/'] + file
    }
}

/// A parsed architecture decision record.
#[derive(Debug, Clone)]
pub struct Adr {
    pub file_id: usize,
    pub file_name: String,
    pub file_path: String,
    pub base_path: String,
    pub content: String,
    pub title: String,
    pub date: String,
    pub status: Status,
    pub state: AdrState,
    pub tags: String,
    pub tags_array: Vec<String>,
}

impl Adr {
    /// Every field read from the text agrees with the text, and the file
    /// fields with the path.
    pub open spec fn wf(&self) -> bool {
        &&& self.file_name@ == file_name_of(self.file_path@)
        &&& self.file_id == seq_id_of(self.file_name@)
        &&& self.title@ == title_of(self.content@)
        &&& self.date@ == date_of(self.content@)
        &&& self.status == status_of(self.content@)
        &&& self.state.status == self.status
        &&& self.tags@ == tags_line(tag_texts(self.content@))
        &&& self.tags_array@.map_values(|t: String| t@) == tags_of(self.content@)
    }

    /// `b` has the file identity and tags of `self`.
    pub open spec fn same_file(&self, b: Adr) -> bool {
        &&& b.file_id == self.file_id
        &&& b.file_name == self.file_name
        &&& b.file_path == self.file_path
        &&& b.base_path == self.base_path
        &&& b.tags == self.tags
        &&& b.tags_array == self.tags_array
    }

    /// The text of `self` moved to status `next` on date `d`: the status
    /// token replaced, then the first date stamped.
    pub open spec fn applied_content(&self, next: Status, d: AdrDate) -> Seq<char> {
        stamped(status_replaced(self.content@, self.status, next), d)
    }

    /// The date field of `self` moved to status `next` on date `d`.
    pub open spec fn applied_date(&self, next: Status, d: AdrDate) -> Seq<char> {
        if first_date(status_replaced(self.content@, self.status, next)) is Some {
            d.text()
        } else {
            self.date@
        }
    }

    /// `b` is `self` moved to status `next` on date `d`.
    pub open spec fn status_applied(&self, b: Adr, next: Status, d: AdrDate) -> bool {
        &&& self.same_file(b)
        &&& b.title == self.title
        &&& b.status == next
        &&& b.state.status == next
        &&& b.content@ == self.applied_content(next, d)
        &&& b.date@ == self.applied_date(next, d)
    }

    /// `b` is `self` moved to status `next` on date `d`, with `name` then
    /// written after its new status token.
    pub open spec fn paired(&self, b: Adr, next: Status, d: AdrDate, name: Seq<char>) -> bool {
        let token = braced(keyword(next));
        &&& self.same_file(b)
        &&& b.title == self.title
        &&& b.status == next
        &&& b.state.status == next
        &&& b.content@ == replace_first(
            self.applied_content(next, d),
            token,
            token + seq![' '] + name,
        )
        &&& b.date@ == self.applied_date(next, d)
    }

    /// `b` is `self` with `name` written after its status token.
    pub open spec fn reference_added(&self, b: Adr, name: Seq<char>) -> bool {
        let token = braced(keyword(self.status));
        &&& self.same_file(b)
        &&& b.title == self.title
        &&& b.date == self.date
        &&& b.status == self.status
        &&& b.state == self.state
        &&& b.content@ == replace_first(self.content@, token, token + seq![' '] + name)
    }

    /// An empty record at status `WIP`.
    pub fn new() -> (r: Adr)
        ensures
            r.file_id == 0,
            r.file_name@ == Seq::<char>::empty(),
            r.file_path@ == Seq::<char>::empty(),
            r.base_path@ == Seq::<char>::empty(),
            r.content@ == Seq::<char>::empty(),
            r.title@ == Seq::<char>::empty(),
            r.date@ == Seq::<char>::empty(),
            r.status == Status::WIP,
            r.state.status == Status::WIP,
            r.tags@ == Seq::<char>::empty(),
            r.tags_array@.len() == 0,
    {
        Adr {
            file_id: 0,
            file_name: String::new(),
            file_path: String::new(),
            base_path: String::new(),
            content: String::new(),
            title: String::new(),
            date: String::new(),
            status: Status::WIP,
            state: AdrState { status: Status::WIP },
            tags: String::new(),
            tags_array: Vec::new(),
        }
    }

    /// Parses a record: every field is read from `content` and `file_path`.
    pub fn from(base_path: String, file_path: String, content: String) -> (r: Adr)
        ensures
            r.wf(),
            r.base_path == base_path,
            r.file_path == file_path,
            r.content == content,
    {
        let path = chars_of(file_path.as_str());
        let name = file_name_from_path(&path);
        let file_name = string_of(name.as_slice());
        let file_id = get_seq_id_from_name(file_name.as_str());
        let c = chars_of(content.as_str());
        let title = parse_title(&c);
        let date = parse_date(&c);
        let status = parse_status(&c);
        let (tags, tags_array) = parse_tags(&c);
        Adr {
            file_id,
            file_name,
            file_path,
            base_path,
            content,
            title: string_of(title.as_slice()),
            date: string_of(date.as_slice()),
            status,
            state: AdrState { status },
            tags,
            tags_array,
        }
    }

    /// A new record made from a template's text: parsed, then retitled.
    pub fn from_template(base_path: String, file_path: String, template: String, title: &str) -> (r:
        Adr)
        ensures
            r.base_path == base_path,
            r.file_path == file_path,
            r.file_name@ == file_name_of(file_path@),
            r.file_id == seq_id_of(r.file_name@),
            r.content@ == replace_first(template@, title_of(template@), title@),
            r.title@ == title@,
            r.date@ == date_of(template@),
            r.status == status_of(template@),
            r.state.status == r.status,
    {
        let mut r = Adr::from(base_path, file_path, template);
        r.update_title(title);
        r
    }

    /// The full path of the record: its file path joined to its base path.
    pub fn path(&self) -> (r: String)
        ensures
            r@ == joined(self.base_path@, self.file_path@),
    {
        let base = chars_of(self.base_path.as_str());
        let file = chars_of(self.file_path.as_str());
        if file.len() > 0 && file[0] == '/' {
            return string_of(file.as_slice());
        }
        if base.len() == 0 {
            return string_of(file.as_slice());
        }
        let mut r = base.clone();
        if base[base.len() - 1] != '/' {
            r.push('/');
        }
        push_all(&mut r, &file);
        string_of(r.as_slice())
    }

    /// The tags of a text: their flat display form, and the tags themselves.
    pub fn get_tags(val: &String) -> (r: (String, Vec<String>))
        ensures
            r.0@ == tags_line(tag_texts(val@)),
            r.1@.map_values(|t: String| t@) == tags_of(val@),
    {
        let c = chars_of(val.as_str());
        parse_tags(&c)
    }

    /// Applies `transition` dated `today`. It is accepted when the state
    /// machine accepts it and the text's first bracketed token is the
    /// record's status token; the token is then replaced and the first date
    /// stamped, so that the text reads back with the new status (and with the
    /// new date, when it holds one). Otherwise nothing changes.
    pub fn update_status_on(&mut self, transition: TransitionStatus, today: AdrDate) -> (r: bool)
        requires
            today.wf(),
        ensures
            r == (step(old(self).status, transition) is Some && token_is_read(
                old(self).content@,
                old(self).status,
            )),
            r ==> old(self).status_applied(
                *final(self),
                step(old(self).status, transition)->0,
                today,
            ),
            r ==> status_of(final(self).content@) == final(self).status,
            r && first_date(old(self).content@) is Some ==> date_of(final(self).content@)
                == final(self).date@,
            !r ==> *final(self) == *old(self),
    {
        let ghost before = *self;
        let mut state = AdrState::build(self.status);
        let accepted = state.transition(transition);
        if !accepted {
            return false;
        }
        let c = chars_of(self.content.as_str());
        let from = braced_keyword(self.status);
        match find_status_span(&c) {
            Some((p, q)) => {
                if !(q - p + 1 == from.len() && matches_at(&c, &from, p)) {
                    proof {
                        if token_is_read(c@, self.status) {
                            assert(c@.subrange(p as int, q + 1) == from@);
                            assert(occurs_at(c@, from@, p as int));
                        }
                    }
                    return false;
                }
                assert(c@.subrange(p as int, q + 1) =~= from@);
            },
            None => {
                return false;
            },
        }
        let to = braced_keyword(state.status);
        let replaced = replace_first_vec(&c, &from, &to);
        self.content = string_of(replaced.as_slice());
        self.status = state.status;
        self.state = state;
        self.update_date(today);
        proof {
            lemma_applied_status_parses(before.content@, before.status, self.status, today);
            if first_date(before.content@) is Some {
                lemma_applied_date_reads_back(before, self.status, today);
            }
        }
        true
    }

    /// Applies `transition` dated today in UTC. It is refused, and nothing
    /// changes, when `update_status_on` would refuse it or today's year has
    /// more than four digits.
    pub fn update_status(&mut self, transition: TransitionStatus) -> (r: bool)
        ensures
            r ==> step(old(self).status, transition) is Some,
            r ==> token_is_read(old(self).content@, old(self).status),
            r ==> exists|d: AdrDate|
                d.wf() && #[trigger] old(self).status_applied(
                    *final(self),
                    step(old(self).status, transition)->0,
                    d,
                ),
            r ==> status_of(final(self).content@) == final(self).status,
            r && first_date(old(self).content@) is Some ==> date_of(final(self).content@)
                == final(self).date@,
            !r ==> *final(self) == *old(self),
    {
        match AdrDate::today() {
            Some(d) => self.update_status_on(transition, d),
            None => false,
        }
    }

    /// Writes ` <adr_title>` right after the status token.
    pub fn add_reference(&mut self, adr_title: &str)
        ensures
            old(self).reference_added(*final(self), adr_title@),
    {
        let c = chars_of(self.content.as_str());
        let token = braced_keyword(self.status);
        let mut with_ref = braced_keyword(self.status);
        with_ref.push(' ');
        let name = chars_of(adr_title);
        push_all(&mut with_ref, &name);
        assert(with_ref@ =~= token@ + seq![' '] + adr_title@);
        let replaced = replace_first_vec(&c, &token, &with_ref);
        self.content = string_of(replaced.as_slice());
    }

    /// Replaces the first date of the text by `today`, and the date field
    /// with it; a text without a date is left as it is.
    pub fn update_date(&mut self, today: AdrDate)
        requires
            today.wf(),
        ensures
            final(self).content@ == stamped(old(self).content@, today),
            final(self).date@ == (if first_date(old(self).content@) is Some {
                today.text()
            } else {
                old(self).date@
            }),
            old(self).same_file(*final(self)),
            final(self).title == old(self).title,
            final(self).status == old(self).status,
            final(self).state == old(self).state,
    {
        let c = chars_of(self.content.as_str());
        match find_date(&c) {
            Some(i) => {
                let text = today.to_text();
                assert(i + 10 <= c.len());
                let stamped = splice_vec(&c, i, i + 10, &text);
                self.content = string_of(stamped.as_slice());
                self.date = string_of(text.as_slice());
            },
            None => {},
        }
    }

    /// Replaces the first occurrence of the current title in the text by
    /// `title`, and the title field with it.
    pub fn update_title(&mut self, title: &str)
        ensures
            final(self).content@ == replace_first(old(self).content@, old(self).title@, title@),
            final(self).title@ == title@,
            old(self).same_file(*final(self)),
            final(self).date == old(self).date,
            final(self).status == old(self).status,
            final(self).state == old(self).state,
    {
        let c = chars_of(self.content.as_str());
        let old_title = chars_of(self.title.as_str());
        let new_title = chars_of(title);
        let replaced = replace_first_vec(&c, &old_title, &new_title);
        self.content = string_of(replaced.as_slice());
        self.title = string_of(new_title.as_slice());
    }
}

/// `{<keyword>}` for a status.
pub fn braced_keyword(s: Status) -> (r: Vec<char>)
    ensures
        r@ == braced(keyword(s)),
{
    let mut r: Vec<char> = Vec::new();
    r.push('{');
    let k = chars_of(s.as_str());
    push_all(&mut r, &k);
    r.push('}');
    assert(r@ =~= braced(keyword(s)));
    r
}

} // verus!
