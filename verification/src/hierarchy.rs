//! The note tree: a directory for each year, in it a directory for each
//! month, in it a file `MM-DD.md` for each day. The tree is taken as a list
//! of names and contents, read beforehand, and the notes are picked out of it.

use crate::file_manager::in_order;
use crate::file_manager::name_views;
use crate::file_manager::sort_names;
use crate::file_manager::strings_of;
use crate::pattern::capture_first_group;
use crate::pattern::first_group;
use crate::text::chars_of;
use crate::text::starts_with;
use crate::text::texts;
use vstd::prelude::*;
use vstd::string::StringExecFns;

verus! {

/// A file of a month's directory. `content` is `None` where the file could
/// not be read as text.
#[derive(Clone, Debug)]
pub struct NoteFile {
    pub name: String,
    pub content: Option<String>,
}

/// An entry of a year's directory, with the files of it where it is a directory.
#[derive(Clone, Debug)]
pub struct MonthDir {
    pub name: String,
    pub is_dir: bool,
    pub files: Vec<NoteFile>,
}

/// An entry of the root directory, with the entries of it where it is a directory.
#[derive(Clone, Debug)]
pub struct YearDir {
    pub name: String,
    pub is_dir: bool,
    pub months: Vec<MonthDir>,
}

/// A note with the date that its place in the tree gives it.
#[derive(Clone, Debug)]
pub struct DatedNote {
    pub date: String,
    pub content: String,
}

/// A note as its date and its content.
pub type NoteText = (Seq<char>, Seq<char>);

/// The text of each note of `v`.
pub open spec fn note_texts(v: Seq<DatedNote>) -> Seq<NoteText> {
    Seq::new(v.len(), |i: int| (v[i].date@, v[i].content@))
}

/// `c` is one of the ten digits.
pub open spec fn is_digit(c: char) -> bool {
    '0' <= c <= '9'
}

/// `name` is made of two to four digits.
pub open spec fn is_numeric_name(name: Seq<char>) -> bool {
    &&& 2 <= name.len() <= 4
    &&& forall|i: int| 0 <= i < name.len() ==> is_digit(#[trigger] name[i])
}

/// `name` begins with a dot.
pub open spec fn is_hidden_name(name: Seq<char>) -> bool {
    starts_with(name, seq!['.'])
}

/// The regular expression of a day's file name: it captures `MM-DD`.
pub open spec fn note_file_pattern() -> Seq<char> {
    "^(\\d{2}-\\d{2})\\.md$"@
}

/// The month and day `MM-DD` that the file name holds, where it is a day's file.
pub open spec fn month_day_of(file_name: Seq<char>) -> Option<Seq<char>> {
    first_group(note_file_pattern(), file_name)
}

/// The date `YEAR-MM-DD` of the file `file_name` in the year `year`.
pub open spec fn date_of(year: Seq<char>, file_name: Seq<char>) -> Option<Seq<char>> {
    match month_day_of(file_name) {
        Some(month_day) => Some(year + seq!['-'] + month_day),
        None => None,
    }
}

/// The entry of the root directory is a year's directory.
pub open spec fn is_year_dir(year: YearDir) -> bool {
    year.is_dir && !is_hidden_name(year.name@) && is_numeric_name(year.name@)
}

/// The entry of a year's directory is a month's directory.
pub open spec fn is_month_dir(month: MonthDir) -> bool {
    month.is_dir && is_numeric_name(month.name@)
}

/// The note that `file` is in the year `year`: it has a day's file name and
/// its content was read.
pub open spec fn note_of_file(year: Seq<char>, file: NoteFile) -> Option<NoteText> {
    match (date_of(year, file.name@), file.content) {
        (Some(date), Some(content)) => Some((date, content@)),
        _ => None,
    }
}

/// The notes among `files`, in their order.
pub open spec fn notes_of_files(year: Seq<char>, files: Seq<NoteFile>) -> Seq<NoteText>
    decreases files.len(),
{
    if files.len() == 0 {
        Seq::empty()
    } else {
        notes_of_files(year, files.drop_last()) + match note_of_file(year, files.last()) {
            Some(note) => seq![note],
            None => Seq::empty(),
        }
    }
}

/// The notes of the month directories among `months`, in their order.
pub open spec fn notes_of_months(year: Seq<char>, months: Seq<MonthDir>) -> Seq<NoteText>
    decreases months.len(),
{
    if months.len() == 0 {
        Seq::empty()
    } else {
        notes_of_months(year, months.drop_last()) + if is_month_dir(months.last()) {
            notes_of_files(year, months.last().files@)
        } else {
            Seq::empty()
        }
    }
}

/// The notes of the year directories among `years`, in their order.
pub open spec fn notes_of_years(years: Seq<YearDir>) -> Seq<NoteText>
    decreases years.len(),
{
    if years.len() == 0 {
        Seq::empty()
    } else {
        notes_of_years(years.drop_last()) + if is_year_dir(years.last()) {
            notes_of_months(years.last().name@, years.last().months@)
        } else {
            Seq::empty()
        }
    }
}

/// Whether `name` is made of two to four digits.
pub fn numeric_name(name: &str) -> (b: bool)
    ensures
        b == is_numeric_name(name@),
{
    let chars = chars_of(name);
    if chars.len() < 2 || chars.len() > 4 {
        return false;
    }
    let mut i: usize = 0;
    while i < chars.len()
        invariant
            i <= chars.len(),
            chars@ == name@,
            forall|j: int| 0 <= j < i ==> is_digit(#[trigger] chars@[j]),
        decreases chars.len() - i,
    {
        let c = chars[i];
        if !('0' <= c && c <= '9') {
            return false;
        }
        i += 1;
    }
    true
}

/// Whether `name` begins with a dot.
pub fn hidden_name(name: &str) -> (b: bool)
    ensures
        b == is_hidden_name(name@),
{
    let chars = chars_of(name);
    if chars.len() >= 1 && chars[0] == '.' {
        assert(chars@.subrange(0, 1) =~= seq!['.']);
        true
    } else {
        proof {
            if chars@.len() >= 1 {
                assert(chars@.subrange(0, 1)[0] == chars@[0]);
            }
        }
        false
    }
}

/// The date `YEAR-MM-DD` of the year `year` and the month and day `MM-DD`.
pub fn join_date(year: &str, month_day: &str) -> (date: String)
    ensures
        date@ == year@ + seq!['-'] + month_day@,
{
    let mut date = String::from_str(year);
    date.push('-');
    date.append(month_day);
    assert(date@ =~= year@ + seq!['-'] + month_day@);
    date
}

/// The date `YEAR-MM-DD` of the file `file_name` in the year `year`, where the
/// file is a day's file.
pub fn note_date(year: &str, file_name: &str) -> (r: Option<String>)
    ensures
        match r {
            Some(date) => date_of(year@, file_name@) == Some(date@),
            None => date_of(year@, file_name@) is None,
        },
{
    match capture_first_group("^(\\d{2}-\\d{2})\\.md$", file_name) {
        Some(month_day) => Some(join_date(year, month_day.as_str())),
        None => None,
    }
}

/// The names among `names` that are made of two to four digits, in their order.
pub open spec fn numeric_names(names: Seq<Seq<char>>) -> Seq<Seq<char>>
    decreases names.len(),
{
    if names.len() == 0 {
        Seq::empty()
    } else if is_numeric_name(names.last()) {
        numeric_names(names.drop_last()).push(names.last())
    } else {
        numeric_names(names.drop_last())
    }
}

/// The names among `names` that are a day's file name, in their order.
pub open spec fn day_file_names(names: Seq<Seq<char>>) -> Seq<Seq<char>>
    decreases names.len(),
{
    if names.len() == 0 {
        Seq::empty()
    } else if month_day_of(names.last()) is Some {
        day_file_names(names.drop_last()).push(names.last())
    } else {
        day_file_names(names.drop_last())
    }
}

/// The years of the tree, or the months of a year, from the names of the
/// entries of the directory: the names made of two to four digits, in the
/// order of strings. A name that begins with a dot is not among them.
pub fn list_numeric(names: &Vec<String>) -> (r: Vec<String>)
    ensures
        name_views(r@) == in_order(numeric_names(name_views(names@))),
{
    let mut shown: Vec<Vec<char>> = Vec::new();
    let mut i: usize = 0;
    let ghost all = name_views(names@);
    assert(all.take(0) =~= Seq::<Seq<char>>::empty());
    assert(texts(shown@) =~= Seq::<Seq<char>>::empty());
    while i < names.len()
        invariant
            i <= names.len(),
            all == name_views(names@),
            texts(shown@) =~= numeric_names(all.take(i as int)),
        decreases names.len() - i,
    {
        proof {
            let upto = all.take(i + 1);
            assert(upto.drop_last() =~= all.take(i as int));
            assert(upto.last() == names@[i as int]@);
        }
        let ghost before = texts(shown@);
        if numeric_name(names[i].as_str()) {
            shown.push(chars_of(names[i].as_str()));
            assert(texts(shown@) =~= before.push(names@[i as int]@));
        }
        i += 1;
    }
    assert(all.take(i as int) =~= all);
    strings_of(&sort_names(&shown))
}

/// The days of a month, from the names of the entries of its directory: the
/// names of a day's file, in the order of strings.
pub fn list_days(names: &Vec<String>) -> (r: Vec<String>)
    ensures
        name_views(r@) == in_order(day_file_names(name_views(names@))),
{
    let mut shown: Vec<Vec<char>> = Vec::new();
    let mut i: usize = 0;
    let ghost all = name_views(names@);
    assert(all.take(0) =~= Seq::<Seq<char>>::empty());
    assert(texts(shown@) =~= Seq::<Seq<char>>::empty());
    while i < names.len()
        invariant
            i <= names.len(),
            all == name_views(names@),
            texts(shown@) =~= day_file_names(all.take(i as int)),
        decreases names.len() - i,
    {
        proof {
            let upto = all.take(i + 1);
            assert(upto.drop_last() =~= all.take(i as int));
            assert(upto.last() == names@[i as int]@);
        }
        let ghost before = texts(shown@);
        match capture_first_group("^(\\d{2}-\\d{2})\\.md$", names[i].as_str()) {
            Some(_) => {
                shown.push(chars_of(names[i].as_str()));
                assert(texts(shown@) =~= before.push(names@[i as int]@));
            },
            None => {},
        }
        i += 1;
    }
    assert(all.take(i as int) =~= all);
    strings_of(&sort_names(&shown))
}

/// Whether an entry of the root directory with this name is a year's directory.
pub fn year_dir_name(name: &str, is_dir: bool) -> (b: bool)
    ensures
        b == (is_dir && !is_hidden_name(name@) && is_numeric_name(name@)),
{
    is_dir && !hidden_name(name) && numeric_name(name)
}

/// Whether an entry of a year's directory with this name is a month's directory.
pub fn month_dir_name(name: &str, is_dir: bool) -> (b: bool)
    ensures
        b == (is_dir && is_numeric_name(name@)),
{
    is_dir && numeric_name(name)
}

/// Adds the notes among `files` to `out`.
fn notes_in_files(year: &str, files: &Vec<NoteFile>, out: &mut Vec<DatedNote>)
    ensures
        note_texts(final(out)@) == note_texts(old(out)@) + notes_of_files(year@, files@),
{
    let mut i: usize = 0;
    assert(files@.take(0) =~= Seq::<NoteFile>::empty());
    assert(note_texts(out@) + Seq::<NoteText>::empty() =~= note_texts(out@));
    while i < files.len()
        invariant
            i <= files.len(),
            note_texts(out@) == note_texts(old(out)@) + notes_of_files(
                year@,
                files@.take(i as int),
            ),
        decreases files.len() - i,
    {
        let file = &files[i];
        proof {
            let upto = files@.take(i + 1);
            assert(upto.drop_last() =~= files@.take(i as int));
            assert(upto.last() == files@[i as int]);
        }
        let ghost before = out@;
        match (note_date(year, file.name.as_str()), &file.content) {
            (Some(date), Some(content)) => {
                let note = DatedNote { date, content: content.clone() };
                out.push(note);
                assert(note_texts(out@) =~= note_texts(before) + seq![(note.date@, note.content@)]);
            },
            _ => {},
        }
        assert(note_texts(out@) =~= note_texts(old(out)@) + notes_of_files(
            year@,
            files@.take(i + 1),
        ));
        i += 1;
    }
    assert(files@.take(i as int) =~= files@);
}

/// Adds the notes of the month directories among `months` to `out`.
fn notes_in_months(year: &str, months: &Vec<MonthDir>, out: &mut Vec<DatedNote>)
    ensures
        note_texts(final(out)@) == note_texts(old(out)@) + notes_of_months(year@, months@),
{
    let mut i: usize = 0;
    assert(months@.take(0) =~= Seq::<MonthDir>::empty());
    assert(note_texts(out@) + Seq::<NoteText>::empty() =~= note_texts(out@));
    while i < months.len()
        invariant
            i <= months.len(),
            note_texts(out@) == note_texts(old(out)@) + notes_of_months(
                year@,
                months@.take(i as int),
            ),
        decreases months.len() - i,
    {
        let month = &months[i];
        proof {
            let upto = months@.take(i + 1);
            assert(upto.drop_last() =~= months@.take(i as int));
            assert(upto.last() == months@[i as int]);
        }
        if month_dir_name(month.name.as_str(), month.is_dir) {
            notes_in_files(year, &month.files, out);
        }
        assert(note_texts(out@) =~= note_texts(old(out)@) + notes_of_months(
            year@,
            months@.take(i + 1),
        ));
        i += 1;
    }
    assert(months@.take(i as int) =~= months@);
}

/// The notes of the tree, each with its date, in the order of the tree: those
/// files with a day's name and a content that stand in a month's directory of
/// a year's directory.
pub fn dated_notes(years: &Vec<YearDir>) -> (r: Vec<DatedNote>)
    ensures
        note_texts(r@) == notes_of_years(years@),
{
    let mut out: Vec<DatedNote> = Vec::new();
    let mut i: usize = 0;
    assert(years@.take(0) =~= Seq::<YearDir>::empty());
    assert(note_texts(out@) =~= Seq::<NoteText>::empty());
    while i < years.len()
        invariant
            i <= years.len(),
            note_texts(out@) == notes_of_years(years@.take(i as int)),
        decreases years.len() - i,
    {
        let year = &years[i];
        proof {
            let upto = years@.take(i + 1);
            assert(upto.drop_last() =~= years@.take(i as int));
            assert(upto.last() == years@[i as int]);
        }
        let ghost before = note_texts(out@);
        if year_dir_name(year.name.as_str(), year.is_dir) {
            notes_in_months(year.name.as_str(), &year.months, &mut out);
        } else {
            assert(before + Seq::<NoteText>::empty() =~= before);
        }
        i += 1;
    }
    assert(years@.take(i as int) =~= years@);
    out
}

} // verus!
