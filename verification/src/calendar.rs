//! Calendar days. A day is held as its number in the proleptic Gregorian
//! calendar, which the `chrono` crate computes from a date's text; order and
//! the day before are then plain arithmetic.

use chrono::Datelike;
use chrono::NaiveDate;
use vstd::prelude::*;

verus! {

/// The number of the day that `text` gives when read in `format`, counted in
/// the proleptic Gregorian calendar with 1 for January 1 of the year 1.
/// `None` where `text` is no date in that format.
pub uninterp spec fn parsed_ordinal(text: Seq<char>, format: Seq<char>) -> Option<i32>;

/// The text `YYYY-MM-DD` of the day with number `ordinal`; `None` where no
/// date that `chrono` holds has that number.
pub uninterp spec fn ordinal_text(ordinal: i32) -> Option<Seq<char>>;

/// Every day number lies strictly between these two.
pub const ORDINAL_LIMIT: i32 = 100_000_000;

/// Calls `NaiveDate::parse_from_str` and gives the date found as its
/// `num_days_from_ce`: the result is `parsed_ordinal`. The dates of `chrono`
/// reach from the year -262143 to the year 262142, so that their numbers stay
/// inside the limit.
#[verifier::external_body]
pub(crate) fn parse_ordinal(text: &str, format: &str) -> (r: Option<i32>)
    ensures
        r == parsed_ordinal(text@, format@),
        r matches Some(n) ==> -ORDINAL_LIMIT < n < ORDINAL_LIMIT,
{
    match NaiveDate::parse_from_str(text, format) {
        Ok(date) => Some(date.num_days_from_ce()),
        Err(_) => None,
    }
}

/// Calls `NaiveDate::from_num_days_from_ce_opt` and prints the date found,
/// which `chrono` does as `YYYY-MM-DD`: the result is `ordinal_text`.
#[verifier::external_body]
pub(crate) fn print_ordinal(ordinal: i32) -> (r: Option<String>)
    ensures
        match r {
            Some(s) => ordinal_text(ordinal) == Some(s@),
            None => ordinal_text(ordinal) is None,
        },
{
    NaiveDate::from_num_days_from_ce_opt(ordinal).map(|date| date.to_string())
}

/// A calendar day.
#[derive(Clone, Copy, Debug, PartialEq, Eq, Structural)]
pub struct Day {
    ordinal: i32,
}

impl Day {
    /// The day's number in the proleptic Gregorian calendar.
    pub closed spec fn number(self) -> int {
        self.ordinal as int
    }

    /// The day's number is inside the limit: this holds of every day.
    #[verifier::type_invariant]
    pub open spec fn wf(self) -> bool {
        -ORDINAL_LIMIT < self.number() < ORDINAL_LIMIT
    }

    /// The day that the text names, if it names one.
    pub open spec fn of_text(text: Seq<char>) -> Option<int> {
        match parsed_ordinal(text, "%Y-%m-%d"@) {
            Some(n) => Some(n as int),
            None => None,
        }
    }

    /// A day is known by its number.
    pub proof fn lemma_same_number(self, other: Day)
        requires
            self.number() == other.number(),
        ensures
            self == other,
    {
    }

    /// The day with the given number, where the number is inside the limit.
    pub fn from_ordinal(ordinal: i32) -> (r: Option<Day>)
        ensures
            r is Some <==> -ORDINAL_LIMIT < ordinal < ORDINAL_LIMIT,
            r matches Some(day) ==> day.number() == ordinal && day.wf(),
    {
        if -ORDINAL_LIMIT < ordinal && ordinal < ORDINAL_LIMIT {
            Some(Day { ordinal })
        } else {
            None
        }
    }

    /// The day's number.
    pub fn ordinal(&self) -> (n: i32)
        ensures
            n == self.number(),
            self.wf(),
    {
        proof {
            use_type_invariant(self);
        }
        self.ordinal
    }

    /// Reads a date written as `YYYY-MM-DD`.
    pub fn parse(text: &str) -> (r: Option<Day>)
        ensures
            match r {
                Some(day) => Day::of_text(text@) == Some(day.number()) && day.wf(),
                None => Day::of_text(text@) is None,
            },
    {
        match parse_ordinal(text, "%Y-%m-%d") {
            Some(ordinal) => Some(Day { ordinal }),
            None => None,
        }
    }

    /// The date written as `YYYY-MM-DD`, where `chrono` holds such a date.
    pub fn to_text(&self) -> (r: Option<String>)
        ensures
            match r {
                Some(s) => ordinal_text(self.number() as i32) == Some(s@),
                None => ordinal_text(self.number() as i32) is None,
            },
    {
        print_ordinal(self.ordinal)
    }

    /// Whether this day comes before `other`.
    pub fn is_before(&self, other: &Day) -> (b: bool)
        ensures
            b == (self.number() < other.number()),
    {
        self.ordinal < other.ordinal
    }

    /// Whether this day comes after `other`.
    pub fn is_after(&self, other: &Day) -> (b: bool)
        ensures
            b == (self.number() > other.number()),
    {
        self.ordinal > other.ordinal
    }
}

} // verus!
