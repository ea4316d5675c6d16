//! Unfinished tasks of earlier days: the scan of the notes for them, the
//! identifier of each, and the removal of one from the note that holds it.

use crate::calendar::Day;
use crate::config::PastUncompletedTask;
use crate::hierarchy::dated_notes;
use crate::hierarchy::note_texts;
use crate::hierarchy::notes_of_years;
use crate::hierarchy::NoteText;
use crate::hierarchy::YearDir;
use crate::pattern::capture_first_group;
use crate::pattern::first_group;
use crate::text::blank;
use crate::text::chars_of;
use crate::text::contains;
use crate::text::fields;
use crate::text::has_within;
use crate::text::is_blank;
use crate::text::is_white_space;
use crate::text::join;
use crate::text::joined;
use crate::text::lines;
use crate::text::split_fields;
use crate::text::split_lines;
use crate::text::string_of;
use crate::text::texts;
use crate::text::trim;
use crate::text::trimmed;
use std::collections::hash_map::DefaultHasher;
use std::hash::Hash;
use std::hash::Hasher;
use vstd::prelude::*;
use vstd::string::StringExecFns;

verus! {

/// The number that the default hasher of std gives for the string `key`.
pub uninterp spec fn hash_of(key: Seq<char>) -> u64;

/// Feeds `key` to a `DefaultHasher` of std, made by `DefaultHasher::new`, and
/// asks it to finish: the result is `hash_of`.
#[verifier::external_body]
pub(crate) fn default_hash(key: &str) -> (h: u64)
    ensures
        h == hash_of(key@),
{
    let mut hasher = DefaultHasher::new();
    key.hash(&mut hasher);
    hasher.finish()
}

/// The digit of value `d` in base 16, in lower case.
pub open spec fn hex_digit(d: int) -> char {
    if d == 0 {
        '0'
    } else if d == 1 {
        '1'
    } else if d == 2 {
        '2'
    } else if d == 3 {
        '3'
    } else if d == 4 {
        '4'
    } else if d == 5 {
        '5'
    } else if d == 6 {
        '6'
    } else if d == 7 {
        '7'
    } else if d == 8 {
        '8'
    } else if d == 9 {
        '9'
    } else if d == 10 {
        'a'
    } else if d == 11 {
        'b'
    } else if d == 12 {
        'c'
    } else if d == 13 {
        'd'
    } else if d == 14 {
        'e'
    } else {
        'f'
    }
}

/// `n` written in base 16, in lower case and without leading zeros.
pub open spec fn hex_text(n: nat) -> Seq<char>
    decreases n,
{
    if n < 16 {
        seq![hex_digit(n as int)]
    } else {
        hex_text(n / 16).push(hex_digit((n % 16) as int))
    }
}

/// `c` is a digit of base 16 in lower case.
pub open spec fn is_hex_digit(c: char) -> bool {
    ('0' <= c <= '9') || ('a' <= c <= 'f')
}

/// 16 to the power `k`.
pub open spec fn pow16(k: nat) -> nat
    decreases k,
{
    if k == 0 {
        1
    } else {
        16 * pow16((k - 1) as nat)
    }
}

/// A number below the `k`th power of 16 is written with 1 to `k` digits of
/// base 16.
pub proof fn lemma_hex_digits(n: nat, k: nat)
    requires
        k >= 1,
        n < pow16(k),
    ensures
        1 <= hex_text(n).len() <= k,
        forall|i: int| 0 <= i < hex_text(n).len() ==> is_hex_digit(#[trigger] hex_text(n)[i]),
    decreases k,
{
    if n >= 16 {
        assert(k >= 2) by {
            if k == 1 {
                assert(pow16(1) == 16 * pow16(0));
            }
        }
        assert(n / 16 < pow16((k - 1) as nat));
        lemma_hex_digits(n / 16, (k - 1) as nat);
        let head = hex_text(n / 16);
        assert forall|i: int| 0 <= i < hex_text(n).len() implies is_hex_digit(
            #[trigger] hex_text(n)[i],
        ) by {
            if i < head.len() {
                assert(hex_text(n)[i] == head[i]);
            }
        }
    }
}

/// The identifier of a task has 1 to 16 characters, each a digit of base 16
/// in lower case.
pub proof fn lemma_task_id(source_date: Seq<char>, text: Seq<char>)
    ensures
        1 <= task_id_of(source_date, text).len() <= 16,
        forall|i: int|
            0 <= i < task_id_of(source_date, text).len() ==> is_hex_digit(
                #[trigger] task_id_of(source_date, text)[i],
            ),
{
    assert(pow16(16) == 0x1_0000_0000_0000_0000) by {
        reveal_with_fuel(pow16, 17);
    }
    lemma_hex_digits(hash_of(source_date + seq![':'] + text) as nat, 16);
}

/// The identifier of the task `text` of the day `source_date`.
pub open spec fn task_id_of(source_date: Seq<char>, text: Seq<char>) -> Seq<char> {
    hex_text(hash_of(source_date + seq![':'] + text) as nat)
}

fn digit_char(d: u64) -> (c: char)
    requires
        d < 16,
    ensures
        c == hex_digit(d as int),
{
    if d == 0 {
        '0'
    } else if d == 1 {
        '1'
    } else if d == 2 {
        '2'
    } else if d == 3 {
        '3'
    } else if d == 4 {
        '4'
    } else if d == 5 {
        '5'
    } else if d == 6 {
        '6'
    } else if d == 7 {
        '7'
    } else if d == 8 {
        '8'
    } else if d == 9 {
        '9'
    } else if d == 10 {
        'a'
    } else if d == 11 {
        'b'
    } else if d == 12 {
        'c'
    } else if d == 13 {
        'd'
    } else if d == 14 {
        'e'
    } else {
        'f'
    }
}

fn push_hex(n: u64, out: &mut String)
    ensures
        final(out)@ == old(out)@ + hex_text(n as nat),
    decreases n,
{
    if n >= 16 {
        push_hex(n / 16, out);
    }
    out.push(digit_char(n % 16));
}

/// `n` written in base 16, in lower case and without leading zeros.
pub fn to_hex(n: u64) -> (r: String)
    ensures
        r@ == hex_text(n as nat),
{
    let mut out = String::new();
    push_hex(n, &mut out);
    out
}

/// The identifier of a task: the hash of its day, a colon and its text,
/// written in base 16. The same day and text give the same identifier.
pub fn generate_task_id(source_date: &str, text: &str) -> (id: String)
    ensures
        id@ == task_id_of(source_date@, text@),
{
    let mut key = String::from_str(source_date);
    key.push(':');
    key.append(text);
    assert(key@ =~= source_date@ + seq![':'] + text@);
    to_hex(default_hash(key.as_str()))
}

/// The header that opens the section of tasks to do.
pub open spec fn todo_header() -> Seq<char> {
    "## \u{5f85}\u{529e}\u{4e8b}\u{9879}"@
}

/// The header that opens the section of completed tasks.
pub open spec fn done_header() -> Seq<char> {
    "## \u{5b8c}\u{6210}\u{4e8b}\u{9879}"@
}

/// The header that opens the section of notes.
pub open spec fn notes_header() -> Seq<char> {
    "## \u{7b14}\u{8bb0}"@
}

/// The regular expression of an unchecked task: it captures the task's text.
pub open spec fn task_pattern() -> Seq<char> {
    "^-\\s*\\[\\s\\]\\s*(.+)$"@
}

/// The line is indented: it begins with white space. An indented line is no
/// task of its own; it belongs to the task above it.
pub open spec fn is_indented(line: Seq<char>) -> bool {
    line.len() > 0 && is_white_space(line[0])
}

/// What a line is to the scan for unfinished tasks.
#[derive(Clone, Debug)]
pub enum LineKind {
    /// The line opens the section of tasks to do.
    TodoHeader,
    /// The line opens another section.
    ClosingHeader,
    /// The line is an unchecked task that does not begin with white space,
    /// with this text.
    Task(String),
    /// Any other line.
    Other,
}

/// What a line is to the scan, with a task's text as a sequence.
pub enum LineClass {
    TodoHeader,
    ClosingHeader,
    Task(Seq<char>),
    Other,
}

impl View for LineKind {
    type V = LineClass;

    open spec fn view(&self) -> LineClass {
        match self {
            LineKind::TodoHeader => LineClass::TodoHeader,
            LineKind::ClosingHeader => LineClass::ClosingHeader,
            LineKind::Task(text) => LineClass::Task(text@),
            LineKind::Other => LineClass::Other,
        }
    }
}

/// The views of the items of `v`.
pub open spec fn classes(v: Seq<LineKind>) -> Seq<LineClass> {
    Seq::new(v.len(), |i: int| v[i]@)
}

/// The views of the items of `v`.
pub open spec fn string_views(v: Seq<String>) -> Seq<Seq<char>> {
    Seq::new(v.len(), |i: int| v[i]@)
}

/// The text of the unchecked task that `line` is, where it is one: the line
/// is not indented, it matches the task pattern, and what it captures is
/// more than white space. The text is what is captured, without the white
/// space at its ends.
pub open spec fn task_text(line: Seq<char>) -> Option<Seq<char>> {
    if is_indented(line) {
        None
    } else {
        match first_group(task_pattern(), line) {
            Some(found) => if trimmed(found).len() > 0 {
                Some(trimmed(found))
            } else {
                None
            },
            None => None,
        }
    }
}

/// What `line` is to the scan.
pub open spec fn class_of(line: Seq<char>) -> LineClass {
    if contains(line, todo_header()) {
        LineClass::TodoHeader
    } else if contains(line, done_header()) || contains(line, notes_header()) {
        LineClass::ClosingHeader
    } else {
        match task_text(line) {
            Some(text) => LineClass::Task(text),
            None => LineClass::Other,
        }
    }
}

/// What each of `lines` is to the scan.
pub open spec fn classes_of(lines: Seq<Seq<char>>) -> Seq<LineClass> {
    Seq::new(lines.len(), |i: int| class_of(lines[i]))
}

/// The texts of the tasks among `kinds` that stand in a section of tasks to
/// do. `in_todo` says whether such a section is open before the first line.
pub open spec fn selected(kinds: Seq<LineClass>, in_todo: bool) -> Seq<Seq<char>>
    decreases kinds.len(),
{
    if kinds.len() == 0 {
        Seq::empty()
    } else {
        let rest = kinds.skip(1);
        match kinds[0] {
            LineClass::TodoHeader => selected(rest, true),
            LineClass::ClosingHeader => selected(rest, false),
            LineClass::Task(text) => if in_todo {
                seq![text] + selected(rest, in_todo)
            } else {
                selected(rest, in_todo)
            },
            LineClass::Other => selected(rest, in_todo),
        }
    }
}

/// The texts of the unfinished tasks of the note `content`, in their order.
pub open spec fn open_tasks(content: Seq<char>) -> Seq<Seq<char>> {
    selected(classes_of(lines(content)), false)
}

/// Whether the line is indented.
pub fn indented(line: &Vec<char>) -> (b: bool)
    ensures
        b == is_indented(line@),
{
    line.len() > 0 && line[0].is_whitespace()
}

/// The text of the unchecked task that `line` is, where it is one.
pub fn task_text_in(line: &Vec<char>) -> (r: Option<String>)
    ensures
        match r {
            Some(text) => task_text(line@) == Some(text@),
            None => task_text(line@) is None,
        },
{
    if indented(line) {
        return None;
    }
    let whole = string_of(line);
    match capture_first_group("^-\\s*\\[\\s\\]\\s*(.+)$", whole.as_str()) {
        Some(found) => {
            let text = trim(&chars_of(found.as_str()));
            if text.len() == 0 {
                None
            } else {
                Some(string_of(&text))
            }
        },
        None => None,
    }
}

/// What `line` is to the scan.
pub fn classify_line(line: &Vec<char>) -> (kind: LineKind)
    ensures
        kind@ == class_of(line@),
{
    let todo = chars_of("## \u{5f85}\u{529e}\u{4e8b}\u{9879}");
    if has_within(line, &todo) {
        return LineKind::TodoHeader;
    }
    let done = chars_of("## \u{5b8c}\u{6210}\u{4e8b}\u{9879}");
    let notes = chars_of("## \u{7b14}\u{8bb0}");
    if has_within(line, &done) || has_within(line, &notes) {
        return LineKind::ClosingHeader;
    }
    match task_text_in(line) {
        Some(text) => LineKind::Task(text),
        None => LineKind::Other,
    }
}

/// The texts of the tasks among `kinds` that stand in a section of tasks to do.
pub fn select_tasks(kinds: &Vec<LineKind>) -> (r: Vec<String>)
    ensures
        string_views(r@) == selected(classes(kinds@), false),
{
    let mut out: Vec<String> = Vec::new();
    let mut in_todo = false;
    let mut i: usize = 0;
    let ghost all = classes(kinds@);
    assert(all.skip(0) =~= all);
    assert(string_views(out@) =~= Seq::<Seq<char>>::empty());
    while i < kinds.len()
        invariant
            i <= kinds.len(),
            all == classes(kinds@),
            string_views(out@) + selected(all.skip(i as int), in_todo) =~= selected(all, false),
        decreases kinds.len() - i,
    {
        proof {
            let rest = all.skip(i as int);
            assert(rest[0] == kinds@[i as int]@);
            assert(rest.skip(1) =~= all.skip(i + 1));
        }
        let ghost before = out@;
        match &kinds[i] {
            LineKind::TodoHeader => {
                in_todo = true;
            },
            LineKind::ClosingHeader => {
                in_todo = false;
            },
            LineKind::Task(text) => {
                if in_todo {
                    out.push(text.clone());
                    assert(string_views(out@) =~= string_views(before) + seq![text@]);
                }
            },
            LineKind::Other => {},
        }
        i += 1;
    }
    out
}

/// The texts of the unfinished tasks of the note `content`, in their order:
/// the unchecked tasks that are not indented and stand in a section of tasks
/// to do.
pub fn open_tasks_of(content: &str) -> (r: Vec<String>)
    ensures
        string_views(r@) == open_tasks(content@),
{
    let all = split_lines(&chars_of(content));
    let mut kinds: Vec<LineKind> = Vec::new();
    let mut i: usize = 0;
    while i < all.len()
        invariant
            i <= all.len(),
            kinds.len() == i,
            texts(all@) == lines(content@),
            classes(kinds@) =~= classes_of(lines(content@).take(i as int)),
        decreases all.len() - i,
    {
        let kind = classify_line(&all[i]);
        let ghost before = kinds@;
        kinds.push(kind);
        proof {
            assert(texts(all@).len() == all@.len());
            assert(texts(all@)[i as int] == all@[i as int]@);
            assert(lines(content@)[i as int] == all@[i as int]@);
            let upto = lines(content@).take(i + 1);
            assert forall|j: int| 0 <= j < i + 1 implies classes(kinds@)[j] == classes_of(upto)[j] by {
                if j < i {
                    assert(classes(before)[j] == classes_of(lines(content@).take(i as int))[j]);
                }
            }
            assert(classes(kinds@) =~= classes_of(upto));
        }
        i += 1;
    }
    assert(lines(content@).take(i as int) =~= lines(content@));
    select_tasks(&kinds)
}

/// A task as its day, its text and its identifier.
pub type TaskText = (Seq<char>, Seq<char>, Seq<char>);

/// The task as its day, its text and its identifier.
pub open spec fn task_text_of(task: PastUncompletedTask) -> TaskText {
    (task.source_date@, task.text@, task.id@)
}

/// Each task of `v` as its day, its text and its identifier.
pub open spec fn task_texts(v: Seq<PastUncompletedTask>) -> Seq<TaskText> {
    Seq::new(v.len(), |i: int| task_text_of(v[i]))
}

/// The tasks with the texts `found` of the day `date`, each with its identifier.
pub open spec fn identified(date: Seq<char>, found: Seq<Seq<char>>) -> Seq<TaskText> {
    Seq::new(found.len(), |i: int| (date, found[i], task_id_of(date, found[i])))
}

/// The tasks among `tasks` whose identifier is not among `dismissed`.
pub open spec fn undismissed(tasks: Seq<TaskText>, dismissed: Seq<Seq<char>>) -> Seq<TaskText>
    decreases tasks.len(),
{
    if tasks.len() == 0 {
        Seq::empty()
    } else {
        undismissed(tasks.drop_last(), dismissed) + if dismissed.contains(tasks.last().2) {
            Seq::empty()
        } else {
            seq![tasks.last()]
        }
    }
}

/// The unfinished tasks of the note `content` of the day `date` that were not
/// dismissed.
pub open spec fn tasks_of_note(
    date: Seq<char>,
    content: Seq<char>,
    dismissed: Seq<Seq<char>>,
) -> Seq<TaskText> {
    undismissed(identified(date, open_tasks(content)), dismissed)
}

/// Whether `id` is among `ids`.
pub fn is_listed(ids: &Vec<String>, id: &String) -> (b: bool)
    ensures
        b == string_views(ids@).contains(id@),
{
    let mut i: usize = 0;
    while i < ids.len()
        invariant
            i <= ids.len(),
            forall|j: int| 0 <= j < i ==> string_views(ids@)[j] != id@,
        decreases ids.len() - i,
    {
        if ids[i] == *id {
            assert(string_views(ids@)[i as int] == id@);
            return true;
        }
        i += 1;
    }
    false
}

/// A copy of the task.
pub fn copy_task(task: &PastUncompletedTask) -> (r: PastUncompletedTask)
    ensures
        task_text_of(r) == task_text_of(*task),
{
    PastUncompletedTask {
        source_date: task.source_date.clone(),
        text: task.text.clone(),
        id: task.id.clone(),
    }
}

/// The tasks among `tasks` whose identifier is not among `dismissed`, in
/// their order.
pub fn keep_undismissed(tasks: &Vec<PastUncompletedTask>, dismissed: &Vec<String>) -> (r: Vec<
    PastUncompletedTask,
>)
    ensures
        task_texts(r@) == undismissed(task_texts(tasks@), string_views(dismissed@)),
{
    let mut out: Vec<PastUncompletedTask> = Vec::new();
    let mut i: usize = 0;
    let ghost all = task_texts(tasks@);
    assert(all.take(0) =~= Seq::<TaskText>::empty());
    assert(task_texts(out@) =~= Seq::<TaskText>::empty());
    while i < tasks.len()
        invariant
            i <= tasks.len(),
            all == task_texts(tasks@),
            task_texts(out@) =~= undismissed(all.take(i as int), string_views(dismissed@)),
        decreases tasks.len() - i,
    {
        proof {
            let upto = all.take(i + 1);
            assert(upto.drop_last() =~= all.take(i as int));
            assert(upto.last() == task_text_of(tasks@[i as int]));
        }
        let ghost before = out@;
        if !is_listed(dismissed, &tasks[i].id) {
            let task = copy_task(&tasks[i]);
            out.push(task);
            assert(task_texts(out@) =~= task_texts(before) + seq![task_text_of(task)]);
        }
        i += 1;
    }
    assert(all.take(i as int) =~= all);
    out
}

/// The unfinished tasks of the note `content` of the day `date` that were not
/// dismissed, in their order.
pub fn undismissed_tasks(date: &str, content: &str, dismissed: &Vec<String>) -> (r: Vec<
    PastUncompletedTask,
>)
    ensures
        task_texts(r@) == tasks_of_note(date@, content@, string_views(dismissed@)),
{
    let found = open_tasks_of(content);
    let mut all: Vec<PastUncompletedTask> = Vec::new();
    let mut i: usize = 0;
    while i < found.len()
        invariant
            i <= found.len(),
            all.len() == i,
            string_views(found@) == open_tasks(content@),
            forall|j: int|
                0 <= j < i ==> task_text_of(#[trigger] all@[j]) == (
                    date@,
                    found@[j]@,
                    task_id_of(date@, found@[j]@),
                ),
        decreases found.len() - i,
    {
        let text = found[i].clone();
        let id = generate_task_id(date, text.as_str());
        all.push(PastUncompletedTask { source_date: String::from_str(date), text, id });
        i += 1;
    }
    proof {
        let wanted = identified(date@, open_tasks(content@));
        assert(string_views(found@).len() == found@.len());
        assert forall|j: int| 0 <= j < wanted.len() implies task_texts(all@)[j] == wanted[j] by {
            assert(string_views(found@)[j] == found@[j]@);
        }
        assert(task_texts(all@) =~= wanted);
    }
    keep_undismissed(&all, dismissed)
}

/// The unfinished tasks of one day's note.
#[derive(Debug)]
pub struct DayTasks {
    pub day: Day,
    pub tasks: Vec<PastUncompletedTask>,
}

/// The unfinished tasks of one day's note, with the day as its number.
pub struct TaskGroup {
    pub day: int,
    pub tasks: Seq<TaskText>,
}

impl View for DayTasks {
    type V = TaskGroup;

    open spec fn view(&self) -> TaskGroup {
        TaskGroup { day: self.day.number(), tasks: task_texts(self.tasks@) }
    }
}

/// The views of the items of `v`.
pub open spec fn groups(v: Seq<DayTasks>) -> Seq<TaskGroup> {
    Seq::new(v.len(), |i: int| v[i]@)
}

/// How many groups at the start of `s` are of `day` or of a later day.
pub open spec fn ahead(s: Seq<TaskGroup>, day: int) -> nat
    decreases s.len(),
{
    if s.len() > 0 && s[0].day >= day {
        1 + ahead(s.skip(1), day)
    } else {
        0
    }
}

/// `s` with `group` put behind the groups of its day and of later days that
/// stand at the start of `s`.
pub open spec fn placed(s: Seq<TaskGroup>, group: TaskGroup) -> Seq<TaskGroup> {
    s.insert(ahead(s, group.day) as int, group)
}

/// The groups `s` with the latest day first; groups of one day keep their order.
pub open spec fn arranged(s: Seq<TaskGroup>) -> Seq<TaskGroup>
    decreases s.len(),
{
    if s.len() == 0 {
        Seq::empty()
    } else {
        placed(arranged(s.drop_last()), s.last())
    }
}

/// The tasks of the groups `s`, one group after the other.
pub open spec fn flattened(s: Seq<TaskGroup>) -> Seq<TaskText>
    decreases s.len(),
{
    if s.len() == 0 {
        Seq::empty()
    } else {
        flattened(s.drop_last()) + s.last().tasks
    }
}

/// No group of `s` is of a later day than the group before it.
pub open spec fn descending(s: Seq<TaskGroup>) -> bool {
    forall|i: int, j: int| 0 <= i < j < s.len() ==> (#[trigger] s[i]).day >= (#[trigger] s[j]).day
}

/// In a descending list the groups that `ahead` counts are all those of
/// `day` or of a later day.
pub proof fn lemma_ahead_splits(s: Seq<TaskGroup>, day: int)
    requires
        descending(s),
    ensures
        ahead(s, day) <= s.len(),
        forall|i: int| 0 <= i < ahead(s, day) ==> (#[trigger] s[i]).day >= day,
        forall|i: int| ahead(s, day) <= i < s.len() ==> (#[trigger] s[i]).day < day,
    decreases s.len(),
{
    if s.len() > 0 && s[0].day >= day {
        let rest = s.skip(1);
        assert forall|i: int, j: int| 0 <= i < j < rest.len() implies (#[trigger] rest[i]).day >= (
        #[trigger] rest[j]).day by {
            assert(rest[i] == s[i + 1]);
            assert(rest[j] == s[j + 1]);
        }
        lemma_ahead_splits(rest, day);
        assert forall|i: int| 0 <= i < ahead(s, day) implies (#[trigger] s[i]).day >= day by {
            if i > 0 {
                assert(rest[i - 1] == s[i]);
            }
        }
        assert forall|i: int| ahead(s, day) <= i < s.len() implies (#[trigger] s[i]).day < day by {
            assert(rest[i - 1] == s[i]);
        }
    } else if s.len() > 0 {
        assert forall|i: int| 0 <= i < s.len() implies (#[trigger] s[i]).day < day by {
            if i > 0 {
                assert(s[0].day >= s[i].day);
            }
        }
    }
}

/// The arranged groups are in descending order of day, and they are as many
/// as the groups given.
pub proof fn lemma_arranged_descending(s: Seq<TaskGroup>)
    ensures
        descending(arranged(s)),
        arranged(s).len() == s.len(),
    decreases s.len(),
{
    if s.len() > 0 {
        let before = arranged(s.drop_last());
        let group = s.last();
        lemma_arranged_descending(s.drop_last());
        lemma_ahead_splits(before, group.day);
        let k = ahead(before, group.day) as int;
        let after = before.insert(k, group);
        assert forall|i: int, j: int| 0 <= i < j < after.len() implies (#[trigger] after[i]).day >= (
        #[trigger] after[j]).day by {
            let bi = if i < k { i } else { i - 1 };
            let bj = if j < k { j } else { j - 1 };
            if i != k {
                assert(after[i] == before[bi]);
            }
            if j != k {
                assert(after[j] == before[bj]);
            }
            if i != k && j != k {
                assert(before[bi].day >= before[bj].day);
            }
        }
    }
}

/// The arranged groups are the groups given, each as often as it was given.
pub proof fn lemma_arranged_permutes(s: Seq<TaskGroup>)
    ensures
        arranged(s).to_multiset() == s.to_multiset(),
    decreases s.len(),
{
    if s.len() > 0 {
        let before = arranged(s.drop_last());
        lemma_arranged_permutes(s.drop_last());
        lemma_arranged_descending(s.drop_last());
        lemma_ahead_splits(before, s.last().day);
        vstd::seq_lib::to_multiset_insert(before, ahead(before, s.last().day) as int, s.last());
        vstd::seq_lib::to_multiset_build(s.drop_last(), s.last());
        assert(s.drop_last().push(s.last()) =~= s);
    } else {
        assert(arranged(s) =~= s);
    }
}

/// A copy of the group.
pub fn copy_group(group: &DayTasks) -> (r: DayTasks)
    ensures
        r@ == group@,
{
    let mut tasks: Vec<PastUncompletedTask> = Vec::new();
    let mut i: usize = 0;
    while i < group.tasks.len()
        invariant
            i <= group.tasks.len(),
            tasks.len() == i,
            forall|j: int|
                0 <= j < i ==> task_text_of(#[trigger] tasks@[j]) == task_text_of(group.tasks@[j]),
        decreases group.tasks.len() - i,
    {
        tasks.push(copy_task(&group.tasks[i]));
        i += 1;
    }
    assert(task_texts(tasks@) =~= task_texts(group.tasks@));
    DayTasks { day: group.day, tasks }
}

/// The groups with the latest day first; groups of one day keep their order.
pub fn newest_first(found: &Vec<DayTasks>) -> (r: Vec<DayTasks>)
    ensures
        groups(r@) == arranged(groups(found@)),
{
    let mut sorted: Vec<DayTasks> = Vec::new();
    let mut i: usize = 0;
    let ghost all = groups(found@);
    assert(all.take(0) =~= Seq::<TaskGroup>::empty());
    assert(groups(sorted@) =~= Seq::<TaskGroup>::empty());
    while i < found.len()
        invariant
            i <= found.len(),
            all == groups(found@),
            groups(sorted@) =~= arranged(all.take(i as int)),
        decreases found.len() - i,
    {
        let group = copy_group(&found[i]);
        proof {
            let upto = all.take(i + 1);
            assert(upto.drop_last() =~= all.take(i as int));
            assert(upto.last() == found@[i as int]@);
        }
        let ghost before = groups(sorted@);
        let mut k: usize = 0;
        assert(before.skip(0) =~= before);
        while k < sorted.len() && !sorted[k].day.is_before(&group.day)
            invariant
                k <= sorted.len(),
                before == groups(sorted@),
                ahead(before, group@.day) == k + ahead(before.skip(k as int), group@.day),
            decreases sorted.len() - k,
        {
            proof {
                assert(before.skip(k as int)[0] == sorted@[k as int]@);
                assert(before.skip(k as int).skip(1) =~= before.skip(k + 1));
            }
            k += 1;
        }
        proof {
            if k < sorted.len() {
                assert(before.skip(k as int)[0] == sorted@[k as int]@);
            }
        }
        let ghost placed_view = group@;
        sorted.insert(k, group);
        assert(groups(sorted@) =~= before.insert(k as int, placed_view));
        i += 1;
    }
    assert(all.take(i as int) =~= all);
    sorted
}

/// The tasks of the groups, one group after the other.
pub fn flatten(sorted: &Vec<DayTasks>) -> (r: Vec<PastUncompletedTask>)
    ensures
        task_texts(r@) == flattened(groups(sorted@)),
{
    let mut out: Vec<PastUncompletedTask> = Vec::new();
    let mut i: usize = 0;
    let ghost all = groups(sorted@);
    assert(all.take(0) =~= Seq::<TaskGroup>::empty());
    assert(task_texts(out@) =~= Seq::<TaskText>::empty());
    while i < sorted.len()
        invariant
            i <= sorted.len(),
            all == groups(sorted@),
            task_texts(out@) =~= flattened(all.take(i as int)),
        decreases sorted.len() - i,
    {
        proof {
            let upto = all.take(i + 1);
            assert(upto.drop_last() =~= all.take(i as int));
            assert(upto.last() == sorted@[i as int]@);
        }
        let group = &sorted[i];
        let ghost start = task_texts(out@);
        let mut j: usize = 0;
        assert(task_texts(group.tasks@).take(0) =~= Seq::<TaskText>::empty());
        while j < group.tasks.len()
            invariant
                j <= group.tasks.len(),
                task_texts(out@) =~= start + task_texts(group.tasks@).take(j as int),
            decreases group.tasks.len() - j,
        {
            let ghost before = task_texts(out@);
            let task = copy_task(&group.tasks[j]);
            out.push(task);
            assert(task_texts(out@) =~= before + seq![task_text_of(task)]);
            assert(task_texts(group.tasks@).take(j + 1) =~= task_texts(group.tasks@).take(j as int)
                + seq![task_text_of(group.tasks@[j as int])]);
            j += 1;
        }
        assert(task_texts(group.tasks@).take(j as int) =~= task_texts(group.tasks@));
        i += 1;
    }
    assert(all.take(i as int) =~= all);
    out
}

/// Why a task of an earlier day was not found or not removed.
#[derive(Clone, Copy, Debug, PartialEq, Eq, Structural)]
pub enum PastTaskError {
    /// A date is not written as it should be.
    MalformedDate,
    /// The note of the task's day does not exist.
    SourceMissing,
}

/// The groups that a scan of `notes` gives as of `today`, in the order of
/// the notes: one for each note of a day before `today`, with its unfinished
/// tasks that were not dismissed.
pub open spec fn groups_of(notes: Seq<NoteText>, dismissed: Seq<Seq<char>>, today: int) -> Seq<
    TaskGroup,
>
    decreases notes.len(),
{
    if notes.len() == 0 {
        Seq::empty()
    } else {
        let note = notes.last();
        groups_of(notes.drop_last(), dismissed, today) + match Day::of_text(note.0) {
            Some(day) => if day < today {
                seq![TaskGroup { day, tasks: tasks_of_note(note.0, note.1, dismissed) }]
            } else {
                Seq::empty()
            },
            None => Seq::empty(),
        }
    }
}

/// The unfinished tasks of the days before the day that `today` names, with
/// the latest day first: the unchecked tasks that are not indented, stand in
/// a section of tasks to do, and were not dismissed.
pub fn scan_past_uncompleted(years: &Vec<YearDir>, dismissed: &Vec<String>, today: &str) -> (r:
    Result<Vec<PastUncompletedTask>, PastTaskError>)
    ensures
        match Day::of_text(today@) {
            Some(day) => r matches Ok(tasks) && task_texts(tasks@) == flattened(
                arranged(groups_of(notes_of_years(years@), string_views(dismissed@), day)),
            ),
            None => r == Err::<Vec<PastUncompletedTask>, PastTaskError>(
                PastTaskError::MalformedDate,
            ),
        },
{
    let now = match Day::parse(today) {
        Some(day) => day,
        None => {
            return Err(PastTaskError::MalformedDate);
        },
    };
    let notes = dated_notes(years);
    let ghost all = note_texts(notes@);
    let mut found: Vec<DayTasks> = Vec::new();
    let mut i: usize = 0;
    assert(all.take(0) =~= Seq::<NoteText>::empty());
    assert(groups(found@) =~= Seq::<TaskGroup>::empty());
    while i < notes.len()
        invariant
            i <= notes.len(),
            all == note_texts(notes@),
            groups(found@) =~= groups_of(
                all.take(i as int),
                string_views(dismissed@),
                now.number(),
            ),
        decreases notes.len() - i,
    {
        let note = &notes[i];
        proof {
            let upto = all.take(i + 1);
            assert(upto.drop_last() =~= all.take(i as int));
            assert(upto.last() == (note.date@, note.content@));
        }
        let ghost before = groups(found@);
        match Day::parse(note.date.as_str()) {
            Some(day) => {
                if day.is_before(&now) {
                    let tasks = undismissed_tasks(
                        note.date.as_str(),
                        note.content.as_str(),
                        dismissed,
                    );
                    let group = DayTasks { day, tasks };
                    let ghost view = group@;
                    found.push(group);
                    assert(groups(found@) =~= before + seq![view]);
                }
            },
            None => {},
        }
        i += 1;
    }
    assert(all.take(i as int) =~= all);
    let sorted = newest_first(&found);
    Ok(flatten(&sorted))
}

/// The line is the unchecked task with the text `text`: a scan gives the line
/// that text.
pub open spec fn is_task_line(line: Seq<char>, text: Seq<char>) -> bool {
    task_text(line) == Some(text)
}

/// A line with what the removal of a task needs to know of it.
#[derive(Clone, Debug)]
pub struct MarkedLine {
    pub line: String,
    /// The line is the task to remove.
    pub is_target: bool,
    /// The line is indented.
    pub is_indented: bool,
    /// The line holds nothing but white space.
    pub is_blank: bool,
}

/// A marked line with its text as a sequence.
pub struct Marked {
    pub line: Seq<char>,
    pub is_target: bool,
    pub is_indented: bool,
    pub is_blank: bool,
}

impl View for MarkedLine {
    type V = Marked;

    open spec fn view(&self) -> Marked {
        Marked {
            line: self.line@,
            is_target: self.is_target,
            is_indented: self.is_indented,
            is_blank: self.is_blank,
        }
    }
}

/// The views of the items of `v`.
pub open spec fn marked(v: Seq<MarkedLine>) -> Seq<Marked> {
    Seq::new(v.len(), |i: int| v[i]@)
}

/// `line` marked for the removal of the task `text`.
pub open spec fn mark_of(line: Seq<char>, text: Seq<char>) -> Marked {
    Marked {
        line,
        is_target: is_task_line(line, text),
        is_indented: is_indented(line),
        is_blank: is_blank(line),
    }
}

/// Each of `lines` marked for the removal of the task `text`.
pub open spec fn marks_of(lines: Seq<Seq<char>>, text: Seq<char>) -> Seq<Marked> {
    Seq::new(lines.len(), |i: int| mark_of(lines[i], text))
}

/// The first line of `lines` that is not blank leaves, given that a task was
/// removed just before them: it is the task again, or it is indented.
pub open spec fn next_leaves(lines: Seq<Marked>) -> bool
    decreases lines.len(),
{
    if lines.len() == 0 {
        false
    } else if lines[0].is_target {
        true
    } else if lines[0].is_blank {
        next_leaves(lines.skip(1))
    } else {
        lines[0].is_indented
    }
}

/// The lines that stay. A line that is the task leaves, and with it the
/// indented lines that follow it. A blank line behind a removed task leaves
/// only where the next line that is not blank leaves too, so that it stood
/// inside what was removed; before a line that stays, and at the end, it
/// stays. `skipping` says whether a task was removed just before the first
/// line.
pub open spec fn kept(lines: Seq<Marked>, skipping: bool) -> Seq<Seq<char>>
    decreases lines.len(),
{
    if lines.len() == 0 {
        Seq::empty()
    } else {
        let rest = lines.skip(1);
        if lines[0].is_target {
            kept(rest, true)
        } else if skipping && lines[0].is_blank {
            if next_leaves(rest) {
                kept(rest, true)
            } else {
                seq![lines[0].line] + kept(rest, false)
            }
        } else if skipping && lines[0].is_indented {
            kept(rest, true)
        } else {
            seq![lines[0].line] + kept(rest, false)
        }
    }
}

/// Each line that stays is a line that was there and is not marked as the
/// task.
pub proof fn lemma_kept_lines(lines: Seq<Marked>, skipping: bool)
    ensures
        forall|i: int|
            0 <= i < kept(lines, skipping).len() ==> exists|j: int|
                0 <= j < lines.len() && (#[trigger] lines[j]).line == #[trigger] kept(
                    lines,
                    skipping,
                )[i] && !lines[j].is_target,
    decreases lines.len(),
{
    if lines.len() > 0 {
        let rest = lines.skip(1);
        let all = kept(lines, skipping);
        lemma_kept_lines(rest, true);
        lemma_kept_lines(rest, false);
        assert forall|i: int| 0 <= i < all.len() implies exists|j: int|
            0 <= j < lines.len() && (#[trigger] lines[j]).line == #[trigger] all[i]
                && !lines[j].is_target by {
            let stays = !lines[0].is_target && !(skipping && lines[0].is_blank && next_leaves(
                rest,
            )) && !(skipping && !lines[0].is_blank && lines[0].is_indented);
            if stays && i == 0 {
                assert(lines[0].line == all[0]);
            } else {
                let tail = if stays {
                    kept(rest, false)
                } else {
                    kept(rest, true)
                };
                let k = if stays {
                    i - 1
                } else {
                    i
                };
                assert(all[i] == tail[k]);
                let j = choose|j: int|
                    0 <= j < rest.len() && (#[trigger] rest[j]).line == tail[k]
                        && !rest[j].is_target;
                assert(rest[j] == lines[j + 1]);
            }
        }
    }
}

/// The note without a task holds no line that a scan gives the text of that
/// task: whatever line stays is not the task `text`.
pub proof fn lemma_task_is_removed(lines: Seq<Seq<char>>, text: Seq<char>)
    ensures
        forall|i: int|
            0 <= i < kept(marks_of(lines, text), false).len() ==> task_text(
                #[trigger] kept(marks_of(lines, text), false)[i],
            ) != Some(text),
{
    let marks = marks_of(lines, text);
    let stay = kept(marks, false);
    lemma_kept_lines(marks, false);
    assert forall|i: int| 0 <= i < stay.len() implies task_text(#[trigger] stay[i]) != Some(
        text,
    ) by {
        let j = choose|j: int|
            0 <= j < marks.len() && (#[trigger] marks[j]).line == stay[i] && !marks[j].is_target;
        assert(marks[j] == mark_of(lines[j], text));
    }
}

/// The note `content` without the task `text`: its lines that stay, joined by
/// line feeds.
pub open spec fn content_without(content: Seq<char>, text: Seq<char>) -> Seq<char> {
    joined(kept(marks_of(lines(content), text), false), seq!['\n'])
}

/// The path of the note of the day `date`, from the root of the tree:
/// `YEAR/MM/MM-DD.md` for the date `YEAR-MM-DD`. `None` where the date is not
/// made of three parts.
pub open spec fn note_path(date: Seq<char>) -> Option<Seq<char>> {
    let parts = fields(date, '-');
    if parts.len() == 3 {
        Some(
            parts[0] + seq!['/'] + parts[1] + seq!['/'] + parts[1] + seq!['-'] + parts[2] + seq![
                '.',
                'm',
                'd',
            ],
        )
    } else {
        None
    }
}

/// Whether the first line from index `from` on that is not blank leaves,
/// given that a task was removed just before.
fn leaves_next(all: &Vec<MarkedLine>, from: usize) -> (b: bool)
    requires
        from <= all.len(),
    ensures
        b == next_leaves(marked(all@).skip(from as int)),
{
    let mut i: usize = from;
    let ghost views = marked(all@);
    while i < all.len() && !all[i].is_target && all[i].is_blank
        invariant
            from <= i <= all.len(),
            views == marked(all@),
            next_leaves(views.skip(from as int)) == next_leaves(views.skip(i as int)),
        decreases all.len() - i,
    {
        proof {
            assert(views.skip(i as int)[0] == all@[i as int]@);
            assert(views.skip(i as int).skip(1) =~= views.skip(i + 1));
        }
        i += 1;
    }
    if i < all.len() {
        assert(views.skip(i as int)[0] == all@[i as int]@);
        all[i].is_target || all[i].is_indented
    } else {
        assert(views.skip(i as int).len() == 0);
        false
    }
}

/// The lines that stay when the marked task lines leave with the lines that
/// go with them.
pub fn drop_marked(all: &Vec<MarkedLine>) -> (r: Vec<String>)
    ensures
        string_views(r@) == kept(marked(all@), false),
{
    let mut out: Vec<String> = Vec::new();
    let mut skipping = false;
    let mut i: usize = 0;
    let ghost views = marked(all@);
    assert(views.skip(0) =~= views);
    assert(string_views(out@) =~= Seq::<Seq<char>>::empty());
    while i < all.len()
        invariant
            i <= all.len(),
            views == marked(all@),
            string_views(out@) + kept(views.skip(i as int), skipping) =~= kept(views, false),
        decreases all.len() - i,
    {
        proof {
            let rest = views.skip(i as int);
            assert(rest[0] == all@[i as int]@);
            assert(rest.skip(1) =~= views.skip(i + 1));
        }
        let ghost before = out@;
        let entry = &all[i];
        if entry.is_target {
            skipping = true;
        } else if skipping && entry.is_blank {
            if !leaves_next(all, i + 1) {
                skipping = false;
                out.push(entry.line.clone());
                assert(string_views(out@) =~= string_views(before) + seq![entry.line@]);
            }
        } else if skipping && entry.is_indented {
        } else {
            skipping = false;
            out.push(entry.line.clone());
            assert(string_views(out@) =~= string_views(before) + seq![entry.line@]);
        }
        i += 1;
    }
    out
}

/// The note `content` without the task `text`: the line of the task leaves,
/// with the indented lines that follow it and the blank lines that stand
/// inside what is removed; every other line stays as it is.
pub fn remove_task(content: &str, text: &str) -> (r: String)
    ensures
        r@ == content_without(content@, text@),
{
    let all = split_lines(&chars_of(content));
    let wanted = String::from_str(text);
    let mut marks: Vec<MarkedLine> = Vec::new();
    let mut i: usize = 0;
    while i < all.len()
        invariant
            i <= all.len(),
            marks.len() == i,
            texts(all@) == lines(content@),
            wanted@ == text@,
            forall|j: int| 0 <= j < i ==> (#[trigger] marks@[j])@ == mark_of(all@[j]@, text@),
        decreases all.len() - i,
    {
        let line = &all[i];
        let is_target = match task_text_in(line) {
            Some(found) => found == wanted,
            None => false,
        };
        marks.push(
            MarkedLine {
                line: string_of(line),
                is_target,
                is_indented: indented(line),
                is_blank: blank(line),
            },
        );
        i += 1;
    }
    proof {
        let given = marks_of(lines(content@), text@);
        assert(texts(all@).len() == all@.len());
        assert forall|j: int| 0 <= j < given.len() implies marked(marks@)[j] == given[j] by {
            assert(texts(all@)[j] == all@[j]@);
        }
        assert(marked(marks@) =~= given);
    }
    let stay = drop_marked(&marks);
    let mut pieces: Vec<Vec<char>> = Vec::new();
    let mut k: usize = 0;
    while k < stay.len()
        invariant
            k <= stay.len(),
            pieces.len() == k,
            forall|j: int| 0 <= j < k ==> (#[trigger] pieces@[j])@ == stay@[j]@,
        decreases stay.len() - k,
    {
        pieces.push(chars_of(stay[k].as_str()));
        k += 1;
    }
    assert(texts(pieces@) =~= string_views(stay@));
    let mut feed: Vec<char> = Vec::new();
    feed.push('\n');
    assert(feed@ =~= seq!['\n']);
    string_of(&join(&pieces, &feed))
}

/// The path of the note of the day `source_date`, from the root of the tree.
pub fn note_path_of(source_date: &str) -> (r: Result<String, PastTaskError>)
    ensures
        match note_path(source_date@) {
            Some(path) => r matches Ok(found) && found@ == path,
            None => r == Err::<String, PastTaskError>(PastTaskError::MalformedDate),
        },
{
    let parts = split_fields(&chars_of(source_date), '-');
    assert(texts(parts@).len() == parts@.len());
    if parts.len() != 3 {
        return Err(PastTaskError::MalformedDate);
    }
    proof {
        assert(texts(parts@)[0] == parts@[0]@);
        assert(texts(parts@)[1] == parts@[1]@);
        assert(texts(parts@)[2] == parts@[2]@);
    }
    let mut path: Vec<char> = Vec::new();
    crate::text::append_chars(&mut path, &parts[0]);
    path.push('/');
    crate::text::append_chars(&mut path, &parts[1]);
    path.push('/');
    crate::text::append_chars(&mut path, &parts[1]);
    path.push('-');
    crate::text::append_chars(&mut path, &parts[2]);
    path.push('.');
    path.push('m');
    path.push('d');
    assert(path@ =~= parts@[0]@ + seq!['/'] + parts@[1]@ + seq!['/'] + parts@[1]@ + seq!['-']
        + parts@[2]@ + seq!['.', 'm', 'd']);
    Ok(string_of(&path))
}

/// A note to write back after a task was removed from it.
#[derive(Clone, Debug)]
pub struct TaskRemoval {
    /// The note's path from the root of the tree.
    pub path: String,
    /// The note's new content.
    pub content: String,
}

/// Removes the task `text` from the note of the day `source_date`: the line
/// of the task, the indented lines that follow it, and the blank lines that
/// stand inside what is removed. Every other line stays as it is.
/// `content` is what the note holds, and `None` where there is no such note.
pub fn delete_past_task(source_date: &str, text: &str, content: Option<&str>) -> (r: Result<
    TaskRemoval,
    PastTaskError,
>)
    ensures
        match (note_path(source_date@), content) {
            (None, _) => r == Err::<TaskRemoval, PastTaskError>(PastTaskError::MalformedDate),
            (Some(_), None) => r == Err::<TaskRemoval, PastTaskError>(
                PastTaskError::SourceMissing,
            ),
            (Some(path), Some(old)) => r matches Ok(removal) && removal.path@ == path
                && removal.content@ == content_without(old@, text@),
        },
{
    let path = match note_path_of(source_date) {
        Ok(path) => path,
        Err(_) => {
            return Err(PastTaskError::MalformedDate);
        },
    };
    match content {
        Some(old) => Ok(TaskRemoval { path, content: remove_task(old, text) }),
        None => Err(PastTaskError::SourceMissing),
    }
}

} // verus!
