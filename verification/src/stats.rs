//! The statistics engine: the counts of one day's note, the summary folded
//! from the daily mapping, and the two ways to reach a mapping, by a full scan
//! of the notes and by an update of one day.

use crate::calendar::Day;
use crate::calendar::ORDINAL_LIMIT;
use crate::daily::ascending;
use crate::daily::has_day;
use crate::daily::index_of_day;
use crate::daily::lemma_ascending_len;
use crate::daily::lemma_mapping_at;
use crate::daily::lemma_mapping_is_injective;
use crate::daily::mapping;
use crate::daily::DailyLog;
use crate::daily::DailyStats;
use crate::daily::DayRecord;
use crate::hierarchy::dated_notes;
use crate::hierarchy::note_texts;
use crate::hierarchy::notes_of_years;
use crate::hierarchy::NoteText;
use crate::hierarchy::YearDir;
use crate::pattern::has_match;
use crate::pattern::matches_somewhere;
use crate::text::chars_of;
use crate::text::lines;
use crate::text::split_lines;
use crate::text::string_of;
use crate::text::texts;
use vstd::prelude::*;
use vstd::string::StringExecFns;

verus! {

/// A quotient of two counts, kept exact. The denominator is never zero.
#[derive(Clone, Copy, Debug, PartialEq, Eq, Structural)]
pub struct Ratio {
    pub numerator: u64,
    pub denominator: u64,
}

/// `numerator / denominator`, and zero where the denominator is zero.
pub open spec fn ratio_of(numerator: nat, denominator: nat) -> Ratio {
    if denominator > 0 {
        Ratio { numerator: numerator as u64, denominator: denominator as u64 }
    } else {
        Ratio { numerator: 0, denominator: 1 }
    }
}

/// The summary over all days of the daily mapping.
#[derive(Clone, Copy, Debug, PartialEq, Eq, Structural)]
pub struct StatsSummary {
    /// Tasks created over all days.
    pub total_tasks_created: u64,
    /// Tasks completed over all days.
    pub total_tasks_completed: u64,
    /// Completed tasks by created tasks.
    pub completion_rate: Ratio,
    /// Perfect days in a row that end today.
    pub current_streak: u32,
    /// The longest run of perfect days.
    pub longest_streak: u32,
    /// Created tasks by days with tasks.
    pub average_tasks_per_day: Ratio,
    /// Days that the mapping holds.
    pub total_days: u32,
    /// Days with at least one task.
    pub days_with_tasks: u32,
    /// Days with tasks that are all completed.
    pub perfect_days: u32,
}

impl Default for StatsSummary {
    fn default() -> (r: Self)
        ensures
            r == summary_of(Seq::<DayRecord>::empty(), None),
    {
        StatsSummary {
            total_tasks_created: 0,
            total_tasks_completed: 0,
            completion_rate: Ratio { numerator: 0, denominator: 1 },
            current_streak: 0,
            longest_streak: 0,
            average_tasks_per_day: Ratio { numerator: 0, denominator: 1 },
            total_days: 0,
            days_with_tasks: 0,
            perfect_days: 0,
        }
    }
}

/// The tasks of all days of `s` together.
pub open spec fn created(s: Seq<DayRecord>) -> nat
    decreases s.len(),
{
    if s.len() == 0 {
        0
    } else {
        created(s.drop_last()) + s.last().stats.total as nat
    }
}

/// The completed tasks of all days of `s` together.
pub open spec fn completed(s: Seq<DayRecord>) -> nat
    decreases s.len(),
{
    if s.len() == 0 {
        0
    } else {
        completed(s.drop_last()) + s.last().stats.completed as nat
    }
}

/// How many days of `s` have a task.
pub open spec fn days_with_tasks(s: Seq<DayRecord>) -> nat
    decreases s.len(),
{
    if s.len() == 0 {
        0
    } else {
        days_with_tasks(s.drop_last()) + if s.last().stats.total > 0 {
            1nat
        } else {
            0nat
        }
    }
}

/// How many days of `s` are perfect.
pub open spec fn perfect_days(s: Seq<DayRecord>) -> nat
    decreases s.len(),
{
    if s.len() == 0 {
        0
    } else {
        perfect_days(s.drop_last()) + if s.last().stats.perfect() {
            1nat
        } else {
            0nat
        }
    }
}

/// The run of perfect days that is open at the end of `s`: a perfect day adds
/// one to it, a day with tasks that is not perfect ends it, and a day without
/// tasks leaves it as it is.
pub open spec fn running_streak(s: Seq<DayRecord>) -> nat
    decreases s.len(),
{
    if s.len() == 0 {
        0
    } else if s.last().stats.perfect() {
        running_streak(s.drop_last()) + 1
    } else if s.last().stats.total > 0 {
        0
    } else {
        running_streak(s.drop_last())
    }
}

/// The longest run that was open at any point of `s`.
pub open spec fn longest_streak(s: Seq<DayRecord>) -> nat
    decreases s.len(),
{
    if s.len() == 0 {
        0
    } else if running_streak(s) > longest_streak(s.drop_last()) {
        running_streak(s)
    } else {
        longest_streak(s.drop_last())
    }
}

/// The perfect days met on the walk back from `day`, one day at a time: the
/// walk ends at the first day that the mapping does not hold and at the first
/// day with tasks that is not perfect; a day held without tasks is passed over.
pub open spec fn streak_back(m: Map<int, DailyStats>, day: int) -> nat
    decreases day + ORDINAL_LIMIT,
{
    if day <= -ORDINAL_LIMIT || !m.contains_key(day) {
        0
    } else if m[day].perfect() {
        1 + streak_back(m, day - 1)
    } else if m[day].total > 0 {
        0
    } else {
        streak_back(m, day - 1)
    }
}

/// The streak that ends today; zero where today is not known.
pub open spec fn current_streak(s: Seq<DayRecord>, today: Option<int>) -> nat {
    match today {
        Some(day) => streak_back(mapping(s), day),
        None => 0,
    }
}

/// The summary of the days `s`, listed in ascending order, as of `today`.
pub open spec fn summary_of(s: Seq<DayRecord>, today: Option<int>) -> StatsSummary {
    StatsSummary {
        total_tasks_created: created(s) as u64,
        total_tasks_completed: completed(s) as u64,
        completion_rate: ratio_of(completed(s), created(s)),
        current_streak: current_streak(s, today) as u32,
        longest_streak: longest_streak(s) as u32,
        average_tasks_per_day: ratio_of(created(s), days_with_tasks(s)),
        total_days: s.len() as u32,
        days_with_tasks: days_with_tasks(s) as u32,
        perfect_days: perfect_days(s) as u32,
    }
}

/// No count over `s` is more than its days allow.
pub proof fn lemma_counts_bounded(s: Seq<DayRecord>)
    ensures
        created(s) <= s.len() * 0xffff_ffff,
        completed(s) <= s.len() * 0xffff_ffff,
        days_with_tasks(s) <= s.len(),
        perfect_days(s) <= s.len(),
        running_streak(s) <= s.len(),
        longest_streak(s) <= s.len(),
    decreases s.len(),
{
    if s.len() > 0 {
        lemma_counts_bounded(s.drop_last());
    }
}

/// Where the entry before `i` is not the day before, the mapping does not
/// hold the day before.
pub proof fn lemma_no_day_before(s: Seq<DayRecord>, i: int)
    requires
        ascending(s),
        0 <= i < s.len(),
        i == 0 || s[i - 1].day.number() != s[i].day.number() - 1,
    ensures
        !mapping(s).contains_key(s[i].day.number() - 1),
        streak_back(mapping(s), s[i].day.number() - 1) == 0,
{
    let day = s[i].day.number();
    if has_day(s, day - 1) {
        let j = index_of_day(s, day - 1);
        if j > i {
            assert(s[i].day.number() < s[j].day.number());
        }
        if j < i - 1 {
            assert(s[j].day.number() < s[i - 1].day.number());
            assert(s[i - 1].day.number() < s[i].day.number());
        }
    }
}

/// The walk back from the entry at `i` meets no more perfect days than the
/// run that is open behind that entry holds.
pub proof fn lemma_streak_back_in_run(s: Seq<DayRecord>, i: int)
    requires
        ascending(s),
        0 <= i < s.len(),
    ensures
        streak_back(mapping(s), s[i].day.number()) <= running_streak(s.take(i + 1)),
    decreases i,
{
    let upto = s.take(i + 1);
    assert(upto.last() == s[i]);
    assert(upto.drop_last() =~= s.take(i));
    lemma_mapping_at(s, i);
    assert(s[i].day.wf());
    if i > 0 && s[i - 1].day.number() == s[i].day.number() - 1 {
        lemma_streak_back_in_run(s, i - 1);
    } else {
        lemma_no_day_before(s, i);
    }
}

/// No run that was open at a point of `s` is longer than the longest one.
pub proof fn lemma_run_in_longest(s: Seq<DayRecord>, k: int)
    requires
        0 <= k <= s.len(),
    ensures
        running_streak(s.take(k)) <= longest_streak(s),
    decreases s.len(),
{
    if k == s.len() {
        assert(s.take(k) =~= s);
    } else {
        assert(s.drop_last().take(k) =~= s.take(k));
        lemma_run_in_longest(s.drop_last(), k);
    }
}

/// The streak that ends today is no longer than the longest streak, and the
/// longest streak holds no more days than there are perfect days.
pub proof fn lemma_streaks_ordered(s: Seq<DayRecord>, today: Option<int>)
    requires
        ascending(s),
    ensures
        current_streak(s, today) <= longest_streak(s),
        longest_streak(s) <= perfect_days(s),
        running_streak(s) <= perfect_days(s),
    decreases s.len(),
{
    if s.len() > 0 {
        crate::daily::lemma_drop_last_days(s, 0);
        lemma_streaks_ordered(s.drop_last(), None);
    }
    match today {
        Some(day) => {
            if has_day(s, day) {
                let i = index_of_day(s, day);
                lemma_streak_back_in_run(s, i);
                lemma_run_in_longest(s, i + 1);
            }
        },
        None => {},
    }
}

/// The summary as of `today`; the streak that ends today is zero where today
/// is not known.
pub fn summarize(daily: &DailyLog, today: Option<Day>) -> (r: StatsSummary)
    ensures
        r == summary_of(
            daily.records(),
            match today {
                Some(day) => Some(day.number()),
                None => None,
            },
        ),
{
    let n = daily.len();
    let ghost s = daily.records();
    proof {
        use_type_invariant(daily);
        lemma_ascending_len(s);
    }
    let mut total_created: u64 = 0;
    let mut total_completed: u64 = 0;
    let mut with_tasks: u32 = 0;
    let mut perfect: u32 = 0;
    let mut running: u32 = 0;
    let mut longest: u32 = 0;
    let mut i: usize = 0;
    while i < n
        invariant
            i <= n,
            n == s.len(),
            s == daily.records(),
            n < 2 * ORDINAL_LIMIT,
            total_created == created(s.take(i as int)),
            total_completed == completed(s.take(i as int)),
            with_tasks == days_with_tasks(s.take(i as int)),
            perfect == perfect_days(s.take(i as int)),
            running == running_streak(s.take(i as int)),
            longest == longest_streak(s.take(i as int)),
        decreases n - i,
    {
        let entry = daily.record(i);
        proof {
            let upto = s.take(i + 1);
            assert(upto.drop_last() =~= s.take(i as int));
            assert(upto.last() == s[i as int]);
            lemma_counts_bounded(s.take(i as int));
            lemma_counts_bounded(upto);
        }
        total_created = total_created + entry.stats.total as u64;
        total_completed = total_completed + entry.stats.completed as u64;
        if entry.stats.total > 0 {
            with_tasks = with_tasks + 1;
            if entry.stats.uncompleted == 0 {
                perfect = perfect + 1;
                running = running + 1;
                if running > longest {
                    longest = running;
                }
            } else {
                running = 0;
            }
        }
        i += 1;
    }
    assert(s.take(n as int) =~= s);
    let streak: u32 = match today {
        Some(day) => streak_ending(daily, day),
        None => 0,
    };
    let completion_rate = if total_created > 0 {
        Ratio { numerator: total_completed, denominator: total_created }
    } else {
        Ratio { numerator: 0, denominator: 1 }
    };
    let average_tasks_per_day = if with_tasks > 0 {
        Ratio { numerator: total_created, denominator: with_tasks as u64 }
    } else {
        Ratio { numerator: 0, denominator: 1 }
    };
    proof {
        lemma_counts_bounded(s);
    }
    StatsSummary {
        total_tasks_created: total_created,
        total_tasks_completed: total_completed,
        completion_rate,
        current_streak: streak,
        longest_streak: longest,
        average_tasks_per_day,
        total_days: n as u32,
        days_with_tasks: with_tasks,
        perfect_days: perfect,
    }
}

/// The streak that ends on `today`.
pub fn streak_ending(daily: &DailyLog, today: Day) -> (r: u32)
    ensures
        r == streak_back(daily@, today.number()),
{
    let ghost s = daily.records();
    let ghost m = daily@;
    proof {
        use_type_invariant(daily);
        lemma_ascending_len(s);
    }
    let k = match daily.position(today) {
        Some(k) => k,
        None => {
            return 0;
        },
    };
    let mut i: usize = k;
    let mut streak: u32 = 0;
    loop
        invariant
            i <= k < s.len(),
            s == daily.records(),
            m == mapping(s),
            ascending(s),
            s.len() < 2 * ORDINAL_LIMIT,
            streak <= k - i,
            streak_back(m, today.number()) == streak + streak_back(m, s[i as int].day.number()),
        decreases i,
    {
        let entry = daily.record(i);
        proof {
            lemma_mapping_at(s, i as int);
            assert(entry.day.wf());
        }
        if entry.stats.is_perfect() {
            streak = streak + 1;
        } else if entry.stats.total > 0 {
            return streak;
        }
        if i == 0 {
            proof {
                lemma_no_day_before(s, 0);
            }
            return streak;
        }
        let before = daily.record(i - 1);
        if before.day.ordinal() != entry.day.ordinal() - 1 {
            proof {
                lemma_no_day_before(s, i as int);
            }
            return streak;
        }
        i -= 1;
    }
}

/// The summary is a function of the mapping and of today: two lists of the
/// same mapping have the same summary.
pub proof fn lemma_summary_of_mapping(a: DailyLog, b: DailyLog, today: Option<int>)
    requires
        a.wf(),
        b.wf(),
        a@ == b@,
    ensures
        a.records() == b.records(),
        summary_of(a.records(), today) == summary_of(b.records(), today),
{
    lemma_mapping_is_injective(a.records(), b.records());
}

/// The regular expression of a checked box.
pub open spec fn done_pattern() -> Seq<char> {
    "- \\[x\\]"@
}

/// The regular expression of an unchecked box.
pub open spec fn open_pattern() -> Seq<char> {
    "- \\[ \\]"@
}

/// What a line holds of boxes.
#[derive(Clone, Copy, Debug, PartialEq, Eq, Structural)]
pub struct BoxMarks {
    /// The line holds a checked box.
    pub checked: bool,
    /// The line holds an unchecked box.
    pub unchecked: bool,
}

/// What `line` holds of boxes.
pub open spec fn marks_of_line(line: Seq<char>) -> BoxMarks {
    BoxMarks {
        checked: has_match(done_pattern(), line),
        unchecked: has_match(open_pattern(), line),
    }
}

/// What each of `lines` holds of boxes.
pub open spec fn box_marks(lines: Seq<Seq<char>>) -> Seq<BoxMarks> {
    Seq::new(lines.len(), |i: int| marks_of_line(lines[i]))
}

/// How many of the lines hold a checked box.
pub open spec fn checked_lines(marks: Seq<BoxMarks>) -> nat
    decreases marks.len(),
{
    if marks.len() == 0 {
        0
    } else {
        checked_lines(marks.drop_last()) + if marks.last().checked {
            1nat
        } else {
            0nat
        }
    }
}

/// How many of the lines hold an unchecked box.
pub open spec fn unchecked_lines(marks: Seq<BoxMarks>) -> nat
    decreases marks.len(),
{
    if marks.len() == 0 {
        0
    } else {
        unchecked_lines(marks.drop_last()) + if marks.last().unchecked {
            1nat
        } else {
            0nat
        }
    }
}

/// The counts of a day whose note is `content`: the lines that hold a checked
/// box are its completed tasks and the lines that hold an unchecked box its
/// uncompleted ones, in whatever section they stand. `None` where the
/// counters cannot hold them.
pub open spec fn counts_of(content: Seq<char>) -> Option<DailyStats> {
    let marks = box_marks(lines(content));
    DailyStats::of_counts(checked_lines(marks), unchecked_lines(marks))
}

/// The counts of a day from what each line of its note holds of boxes.
pub fn count_marks(marks: &Vec<BoxMarks>) -> (r: Option<DailyStats>)
    ensures
        r == DailyStats::of_counts(checked_lines(marks@), unchecked_lines(marks@)),
        r matches Some(stats) ==> stats.total == stats.completed + stats.uncompleted,
{
    let mut checked: usize = 0;
    let mut unchecked: usize = 0;
    let mut i: usize = 0;
    assert(marks@.take(0) =~= Seq::<BoxMarks>::empty());
    while i < marks.len()
        invariant
            i <= marks.len(),
            checked == checked_lines(marks@.take(i as int)),
            unchecked == unchecked_lines(marks@.take(i as int)),
            checked <= i,
            unchecked <= i,
        decreases marks.len() - i,
    {
        proof {
            let upto = marks@.take(i + 1);
            assert(upto.drop_last() =~= marks@.take(i as int));
            assert(upto.last() == marks@[i as int]);
        }
        if marks[i].checked {
            checked = checked + 1;
        }
        if marks[i].unchecked {
            unchecked = unchecked + 1;
        }
        i += 1;
    }
    assert(marks@.take(i as int) =~= marks@);
    DailyStats::from_counts(checked, unchecked)
}

/// Counts the tasks of a day's note, line by line. Whatever the note holds,
/// the total of the counts is the sum of the completed and the uncompleted
/// ones.
pub fn parse_tasks_from_content(content: &str) -> (r: Option<DailyStats>)
    ensures
        r == counts_of(content@),
        r matches Some(stats) ==> stats.total == stats.completed + stats.uncompleted,
{
    let all = split_lines(&chars_of(content));
    let mut marks: Vec<BoxMarks> = Vec::new();
    let mut i: usize = 0;
    while i < all.len()
        invariant
            i <= all.len(),
            marks.len() == i,
            texts(all@) == lines(content@),
            forall|j: int| 0 <= j < i ==> #[trigger] marks@[j] == marks_of_line(all@[j]@),
        decreases all.len() - i,
    {
        let line = string_of(&all[i]);
        let checked = matches_somewhere("- \\[x\\]", line.as_str());
        let unchecked = matches_somewhere("- \\[ \\]", line.as_str());
        marks.push(BoxMarks { checked, unchecked });
        i += 1;
    }
    proof {
        let wanted = box_marks(lines(content@));
        assert(texts(all@).len() == all@.len());
        assert forall|j: int| 0 <= j < wanted.len() implies marks@[j] == wanted[j] by {
            assert(texts(all@)[j] == all@[j]@);
        }
        assert(marks@ =~= wanted);
    }
    count_marks(&marks)
}

/// Why the statistics were not computed.
#[derive(Clone, Copy, Debug, PartialEq, Eq, Structural)]
pub enum StatsError {
    /// The day to record comes after today.
    FutureDate,
    /// A date is not written as `YYYY-MM-DD`.
    MalformedDate,
}

/// The mapping that `days` give when they are recorded one after the other:
/// a day after `today` and a day without tasks are passed over, and of two
/// entries for one day the later one stays.
pub open spec fn kept_days(days: Seq<DayRecord>, today: int) -> Map<int, DailyStats>
    decreases days.len(),
{
    if days.len() == 0 {
        Map::empty()
    } else {
        let before = kept_days(days.drop_last(), today);
        let entry = days.last();
        if entry.day.number() <= today && entry.stats.total > 0 {
            before.insert(entry.day.number(), entry.stats)
        } else {
            before
        }
    }
}

/// What the note gives for the mapping as of `today`: its day and its counts,
/// where its date is a date not after `today` and it holds a task.
pub open spec fn reading_of(note: NoteText, today: int) -> Option<(int, DailyStats)> {
    match (Day::of_text(note.0), counts_of(note.1)) {
        (Some(day), Some(stats)) => if day <= today && stats.total > 0 {
            Some((day, stats))
        } else {
            None
        },
        _ => None,
    }
}

/// The mapping that a scan of `notes` gives as of `today`.
pub open spec fn scanned_mapping(notes: Seq<NoteText>, today: int) -> Map<int, DailyStats>
    decreases notes.len(),
{
    if notes.len() == 0 {
        Map::empty()
    } else {
        let before = scanned_mapping(notes.drop_last(), today);
        match reading_of(notes.last(), today) {
            Some((day, stats)) => before.insert(day, stats),
            None => before,
        }
    }
}

/// The mapping after the counts `stats` are reported for `day`: a day without
/// tasks is not tracked.
pub open spec fn updated_mapping(
    m: Map<int, DailyStats>,
    day: int,
    stats: DailyStats,
) -> Map<int, DailyStats> {
    if stats.total > 0 {
        m.insert(day, stats)
    } else {
        m.remove(day)
    }
}

/// The daily mapping with the summary derived from it.
#[derive(Clone, Debug)]
pub struct Statistics {
    /// The day of the last change, as it was given.
    pub last_updated: String,
    /// The counts of each tracked day.
    pub daily: DailyLog,
    /// The summary of `daily`.
    pub summary: StatsSummary,
}

impl Default for Statistics {
    fn default() -> (r: Self)
        ensures
            r.last_updated@ == Seq::<char>::empty(),
            r.daily@ == Map::<int, DailyStats>::empty(),
            r.summary == summary_of(r.daily.records(), None),
    {
        Statistics {
            last_updated: String::new(),
            daily: DailyLog::new(),
            summary: StatsSummary::default(),
        }
    }
}

impl Statistics {
    /// The summary is the one derived from the mapping as of `today`.
    pub open spec fn is_current(&self, today: int) -> bool {
        self.summary == summary_of(self.daily.records(), Some(today))
    }

    /// The statistics of the days `days` as of `today`, derived from nothing
    /// else.
    pub fn rebuild(days: &Vec<DayRecord>, today: Day, stamp: &str) -> (r: Statistics)
        ensures
            r.daily@ == kept_days(days@, today.number()),
            r.is_current(today.number()),
            r.last_updated@ == stamp@,
    {
        let mut daily = DailyLog::new();
        let mut i: usize = 0;
        assert(days@.take(0) =~= Seq::<DayRecord>::empty());
        while i < days.len()
            invariant
                i <= days.len(),
                daily@ == kept_days(days@.take(i as int), today.number()),
            decreases days.len() - i,
        {
            let entry = days[i];
            proof {
                let upto = days@.take(i + 1);
                assert(upto.drop_last() =~= days@.take(i as int));
                assert(upto.last() == days@[i as int]);
            }
            if !entry.day.is_after(&today) && entry.stats.total > 0 {
                daily.upsert(entry.day, entry.stats);
            }
            i += 1;
        }
        assert(days@.take(i as int) =~= days@);
        let summary = summarize(&daily, Some(today));
        Statistics { last_updated: String::from_str(stamp), daily, summary }
    }

    /// Records the counts of one day. A day after `today` is refused. A day
    /// without tasks leaves the mapping, any other day is set in it, and the
    /// summary is derived anew from the whole mapping.
    pub fn record_day(self, day: Day, stats: DailyStats, today: Day, stamp: &str) -> (r: Result<
        Statistics,
        StatsError,
    >)
        ensures
            day.number() > today.number() ==> r == Err::<Statistics, StatsError>(
                StatsError::FutureDate,
            ),
            day.number() <= today.number() ==> (r matches Ok(after) && after.daily@
                == updated_mapping(self.daily@, day.number(), stats) && after.is_current(
                today.number(),
            ) && after.last_updated@ == stamp@),
    {
        if day.is_after(&today) {
            return Err(StatsError::FutureDate);
        }
        let mut daily = self.daily;
        if stats.total > 0 {
            daily.upsert(day, stats);
        } else {
            daily.remove(day);
        }
        let summary = summarize(&daily, Some(today));
        Ok(Statistics { last_updated: String::from_str(stamp), daily, summary })
    }
}

/// Derives the statistics from all the notes of the tree, as of the day that
/// `today` names: each note with a date not after today is counted, and a day
/// without tasks is not tracked.
pub fn recalculate_stats(years: &Vec<YearDir>, today: &str) -> (r: Result<Statistics, StatsError>)
    ensures
        match Day::of_text(today@) {
            Some(day) => r matches Ok(stats) && stats.daily@ == scanned_mapping(
                notes_of_years(years@),
                day,
            ) && stats.is_current(day) && stats.last_updated@ == today@,
            None => r == Err::<Statistics, StatsError>(StatsError::MalformedDate),
        },
{
    let today_day = match Day::parse(today) {
        Some(day) => day,
        None => {
            return Err(StatsError::MalformedDate);
        },
    };
    let notes = dated_notes(years);
    let ghost texts = note_texts(notes@);
    let mut days: Vec<DayRecord> = Vec::new();
    let mut i: usize = 0;
    assert(texts.take(0) =~= Seq::<NoteText>::empty());
    while i < notes.len()
        invariant
            i <= notes.len(),
            texts == note_texts(notes@),
            kept_days(days@, today_day.number()) == scanned_mapping(
                texts.take(i as int),
                today_day.number(),
            ),
        decreases notes.len() - i,
    {
        let note = &notes[i];
        proof {
            let upto = texts.take(i + 1);
            assert(upto.drop_last() =~= texts.take(i as int));
            assert(upto.last() == (note.date@, note.content@));
        }
        let ghost before = days@;
        match (Day::parse(note.date.as_str()), parse_tasks_from_content(note.content.as_str())) {
            (Some(day), Some(stats)) => {
                days.push(DayRecord { day, stats });
                assert(days@.drop_last() =~= before);
            },
            _ => {},
        }
        i += 1;
    }
    assert(texts.take(i as int) =~= texts);
    Ok(Statistics::rebuild(&days, today_day, today))
}

/// Records the counts reported for the day that `date` names, as of the day
/// that `today` names.
pub fn update_daily_stats(
    stats: Statistics,
    date: &str,
    total: u32,
    completed: u32,
    uncompleted: u32,
    today: &str,
) -> (r: Result<Statistics, StatsError>)
    ensures
        match (Day::of_text(date@), Day::of_text(today@)) {
            (Some(day), Some(now)) => if day > now {
                r == Err::<Statistics, StatsError>(StatsError::FutureDate)
            } else {
                r matches Ok(after) && after.daily@ == updated_mapping(
                    stats.daily@,
                    day,
                    DailyStats { total, completed, uncompleted },
                ) && after.is_current(now) && after.last_updated@ == today@
            },
            _ => r == Err::<Statistics, StatsError>(StatsError::MalformedDate),
        },
{
    let now = match Day::parse(today) {
        Some(day) => day,
        None => {
            return Err(StatsError::MalformedDate);
        },
    };
    let day = match Day::parse(date) {
        Some(day) => day,
        None => {
            return Err(StatsError::MalformedDate);
        },
    };
    stats.record_day(day, DailyStats { total, completed, uncompleted }, now, today)
}

/// The summary as of the day that `today` names; where it names none, the
/// streak that ends today is zero.
pub fn calculate_summary(daily: &DailyLog, today: &str) -> (r: StatsSummary)
    ensures
        r == summary_of(daily.records(), Day::of_text(today@)),
{
    summarize(daily, Day::parse(today))
}

/// The mapping that a series of updates reaches from the empty mapping: one
/// update for each note of `notes`, in their order, with the counts of the
/// note, all of them made on the day `today`. An update for a later day is
/// refused and changes nothing.
pub open spec fn updates_mapping(notes: Seq<NoteText>, today: int) -> Map<int, DailyStats>
    decreases notes.len(),
{
    if notes.len() == 0 {
        Map::empty()
    } else {
        let before = updates_mapping(notes.drop_last(), today);
        match (Day::of_text(notes.last().0), counts_of(notes.last().1)) {
            (Some(day), Some(stats)) => if day <= today {
                updated_mapping(before, day, stats)
            } else {
                before
            },
            _ => before,
        }
    }
}

/// The day of the reading that the note gives.
pub open spec fn day_read(note: NoteText, today: int) -> int {
    (reading_of(note, today)->0).0
}

/// No two of the notes are of the same day.
pub open spec fn one_note_per_day(notes: Seq<NoteText>) -> bool {
    forall|i: int, j: int|
        0 <= i < notes.len() && 0 <= j < notes.len() && i != j && Day::of_text(
            (#[trigger] notes[i]).0,
        ) is Some ==> Day::of_text(notes[i].0) != Day::of_text((#[trigger] notes[j]).0)
}

/// Among notes of different days the scanned mapping holds, for each note
/// that gives a reading, the counts of that note under its day, and it holds
/// no other day.
pub proof fn lemma_scanned_readings(notes: Seq<NoteText>, today: int)
    requires
        one_note_per_day(notes),
    ensures
        forall|i: int|
            0 <= i < notes.len() && reading_of(#[trigger] notes[i], today) is Some ==> {
                let reading = reading_of(notes[i], today)->0;
                scanned_mapping(notes, today).contains_key(reading.0) && scanned_mapping(
                    notes,
                    today,
                )[reading.0] == reading.1
            },
        forall|day: int| #[trigger]
            scanned_mapping(notes, today).contains_key(day) ==> exists|i: int|
                0 <= i < notes.len() && reading_of(#[trigger] notes[i], today) is Some
                    && day_read(notes[i], today) == day,
    decreases notes.len(),
{
    if notes.len() > 0 {
        let head = notes.drop_last();
        let last = notes.last();
        let m = scanned_mapping(notes, today);
        let before = scanned_mapping(head, today);
        assert forall|i: int, j: int|
            0 <= i < head.len() && 0 <= j < head.len() && i != j && Day::of_text(
                (#[trigger] head[i]).0,
            ) is Some implies Day::of_text(head[i].0) != Day::of_text((#[trigger] head[j]).0) by {
            assert(head[i] == notes[i]);
            assert(head[j] == notes[j]);
        }
        lemma_scanned_readings(head, today);
        assert forall|i: int|
            0 <= i < notes.len() && reading_of(#[trigger] notes[i], today) is Some implies {
            let reading = reading_of(notes[i], today)->0;
            m.contains_key(reading.0) && m[reading.0] == reading.1
        } by {
            if i < head.len() {
                assert(head[i] == notes[i]);
                let reading = reading_of(head[i], today)->0;
                assert(before.contains_key(reading.0) && before[reading.0] == reading.1);
                assert(Day::of_text(notes[i].0) == Some(reading.0));
                assert(notes[notes.len() - 1] == last);
                assert(Day::of_text(notes[i].0) != Day::of_text(notes[notes.len() - 1].0));
            }
        }
        assert forall|day: int| #[trigger] m.contains_key(day) implies exists|i: int|
            0 <= i < notes.len() && reading_of(#[trigger] notes[i], today) is Some && day_read(notes[i], today) == day by {
            if before.contains_key(day) {
                let i = choose|i: int|
                    0 <= i < head.len() && reading_of(#[trigger] head[i], today) is Some
                        && day_read(head[i], today) == day;
                assert(head[i] == notes[i]);
            } else {
                assert(notes[notes.len() - 1] == last);
                assert(reading_of(notes[notes.len() - 1], today) is Some);
            }
        }
    }
}

/// Updates made note by note reach the mapping that a scan of the same notes
/// gives, where no two notes are of the same day.
pub proof fn lemma_updates_reach_scan(notes: Seq<NoteText>, today: int)
    requires
        one_note_per_day(notes),
    ensures
        updates_mapping(notes, today) == scanned_mapping(notes, today),
    decreases notes.len(),
{
    if notes.len() > 0 {
        let head = notes.drop_last();
        let last = notes.last();
        assert forall|i: int, j: int|
            0 <= i < head.len() && 0 <= j < head.len() && i != j && Day::of_text(
                (#[trigger] head[i]).0,
            ) is Some implies Day::of_text(head[i].0) != Day::of_text((#[trigger] head[j]).0) by {
            assert(head[i] == notes[i]);
            assert(head[j] == notes[j]);
        }
        lemma_updates_reach_scan(head, today);
        lemma_scanned_readings(head, today);
        let before = scanned_mapping(head, today);
        match (Day::of_text(last.0), counts_of(last.1)) {
            (Some(day), Some(stats)) => {
                if day <= today && stats.total == 0 {
                    // the day of the last note is the day of no note before it
                    if before.contains_key(day) {
                        let i = choose|i: int|
                            0 <= i < head.len() && reading_of(#[trigger] head[i], today) is Some
                                && day_read(head[i], today) == day;
                        assert(head[i] == notes[i]);
                        assert(notes[notes.len() - 1] == last);
                        assert(Day::of_text(notes[i].0) == Some(day));
                        assert(Day::of_text(notes[i].0) != Day::of_text(
                            notes[notes.len() - 1].0,
                        ));
                    }
                    assert(before.remove(day) =~= before);
                }
            },
            _ => {},
        }
    }
}

/// The scanned mapping does not depend on the order of the notes, where no
/// two notes are of the same day.
pub proof fn lemma_scan_in_any_order(a: Seq<NoteText>, b: Seq<NoteText>, today: int)
    requires
        one_note_per_day(a),
        one_note_per_day(b),
        forall|note: NoteText| a.contains(note) <==> b.contains(note),
    ensures
        scanned_mapping(a, today) == scanned_mapping(b, today),
{
    lemma_scanned_readings(a, today);
    lemma_scanned_readings(b, today);
    let ma = scanned_mapping(a, today);
    let mb = scanned_mapping(b, today);
    assert forall|day: int| ma.contains_key(day) implies mb.contains_key(day) && mb[day]
        == ma[day] by {
        let i = choose|i: int|
            0 <= i < a.len() && reading_of(#[trigger] a[i], today) is Some && day_read(a[i], today) == day;
        assert(a.contains(a[i]));
        assert(b.contains(a[i]));
        let j = choose|j: int| 0 <= j < b.len() && b[j] == a[i];
        assert(reading_of(b[j], today) is Some);
    }
    assert forall|day: int| mb.contains_key(day) implies ma.contains_key(day) by {
        let j = choose|j: int|
            0 <= j < b.len() && reading_of(#[trigger] b[j], today) is Some && day_read(b[j], today) == day;
        assert(b.contains(b[j]));
        assert(a.contains(b[j]));
        let i = choose|i: int| 0 <= i < a.len() && a[i] == b[j];
        assert(reading_of(a[i], today) is Some);
    }
    assert(ma =~= mb);
}

/// A scan of the notes and a series of updates, one for each note in any
/// order, reach the same mapping, where no two notes are of the same day.
pub proof fn lemma_scan_matches_updates(
    scanned: Seq<NoteText>,
    updated: Seq<NoteText>,
    today: int,
)
    requires
        one_note_per_day(scanned),
        one_note_per_day(updated),
        forall|note: NoteText| scanned.contains(note) <==> updated.contains(note),
    ensures
        scanned_mapping(scanned, today) == updates_mapping(updated, today),
{
    lemma_updates_reach_scan(updated, today);
    lemma_scan_in_any_order(scanned, updated, today);
}

/// A full scan and a series of updates that reach the same mapping give the
/// same statistics: the same list of days and the same summary.
pub proof fn lemma_same_mapping_same_statistics(a: Statistics, b: Statistics, today: int)
    requires
        a.daily.wf(),
        b.daily.wf(),
        a.daily@ == b.daily@,
        a.is_current(today),
        b.is_current(today),
    ensures
        a.daily.records() == b.daily.records(),
        a.summary == b.summary,
{
    lemma_summary_of_mapping(a.daily, b.daily, Some(today));
}

} // verus!
