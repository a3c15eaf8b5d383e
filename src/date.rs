//! Calendar dates as records write them: `YYYY-MM-DD`.

use vstd::prelude::*;
use chrono::Datelike;

verus! {

/// A calendar date whose year has at most four digits.
#[derive(Debug, PartialEq, Eq, Structural, Copy, Clone)]
pub struct AdrDate {
    pub year: u32,
    pub month: u32,
    pub day: u32,
}

/// The decimal digit for `n < 10`.
pub open spec fn digit(n: u32) -> char {
    seq!['0', '1', '2', '3', '4', '5', '6', '7', '8', '9'][n as int]
}

impl AdrDate {
    pub open spec fn wf(&self) -> bool {
        &&& self.year <= 9999
        &&& 1 <= self.month <= 12
        &&& 1 <= self.day <= 31
    }

    /// The date written `YYYY-MM-DD`, with leading zeros.
    pub open spec fn text(&self) -> Seq<char> {
        seq![
            digit(self.year / 1000),
            digit((self.year / 100) % 10),
            digit((self.year / 10) % 10),
            digit(self.year % 10),
            '-',
            digit(self.month / 10),
            digit(self.month % 10),
            '-',
            digit(self.day / 10),
            digit(self.day % 10),
        ]
    }

    /// The date with these parts, if they are in range.
    pub fn new(year: u32, month: u32, day: u32) -> (r: Option<AdrDate>)
        ensures
            r is Some <==> (year <= 9999 && 1 <= month <= 12 && 1 <= day <= 31),
            r matches Some(d) ==> d.wf() && d.year == year && d.month == month && d.day == day,
    {
        if year <= 9999 && 1 <= month && month <= 12 && 1 <= day && day <= 31 {
            Some(AdrDate { year, month, day })
        } else {
            None
        }
    }

    /// Today's date in UTC, when its year has at most four digits.
    pub fn today() -> (r: Option<AdrDate>)
        ensures
            r matches Some(d) ==> d.wf(),
    {
        let (y, m, d) = utc_today();
        if y < 0 {
            return None;
        }
        AdrDate::new(y as u32, m, d)
    }

    /// The date written `YYYY-MM-DD`.
    pub fn to_text(&self) -> (r: Vec<char>)
        requires
            self.wf(),
        ensures
            r@ == self.text(),
    {
        let mut r: Vec<char> = Vec::new();
        r.push(digit_char(self.year / 1000));
        r.push(digit_char((self.year / 100) % 10));
        r.push(digit_char((self.year / 10) % 10));
        r.push(digit_char(self.year % 10));
        r.push('-');
        r.push(digit_char(self.month / 10));
        r.push(digit_char(self.month % 10));
        r.push('-');
        r.push(digit_char(self.day / 10));
        r.push(digit_char(self.day % 10));
        assert(r@ =~= self.text());
        r
    }
}

/// The decimal digit for `n < 10`.
pub fn digit_char(n: u32) -> (r: char)
    requires
        n < 10,
    ensures
        r == digit(n),
        '0' <= r <= '9',
{
    match n {
        0 => '0',
        1 => '1',
        2 => '2',
        3 => '3',
        4 => '4',
        5 => '5',
        6 => '6',
        7 => '7',
        8 => '8',
        _ => '9',
    }
}

/// Relies on chrono's `From<SystemTime> for DateTime<Utc>` (which also takes
/// clocks set before 1970) and `DateTime::date_naive` for today's date in
/// UTC, and on `Datelike`, whose `month` is documented to lie in 1..=12 and
/// `day` in 1..=31.
#[verifier::external_body]
fn utc_today() -> (r: (i32, u32, u32))
    ensures
        1 <= r.1 <= 12,
        1 <= r.2 <= 31,
{
    let d = chrono::DateTime::<chrono::Utc>::from(std::time::SystemTime::now()).date_naive();
    (d.year(), d.month(), d.day())
}

} // verus!
