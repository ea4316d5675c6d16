//! The daily mapping: for each tracked day its task counts, held in ascending
//! order of day so that each mapping has one representation.

use crate::calendar::Day;
use crate::calendar::ORDINAL_LIMIT;
use vstd::prelude::*;

verus! {

/// The task counts of one day.
#[derive(Clone, Copy, Debug, PartialEq, Eq, Structural)]
pub struct DailyStats {
    pub total: u32,
    pub completed: u32,
    pub uncompleted: u32,
}

impl DailyStats {
    /// Every task is either completed or not.
    pub open spec fn consistent(self) -> bool {
        self.total == self.completed + self.uncompleted
    }

    /// The day has tasks and all of them are completed.
    pub open spec fn perfect(self) -> bool {
        self.total > 0 && self.uncompleted == 0
    }

    /// The counts of a day with `completed` checked and `uncompleted` unchecked
    /// boxes, where the three counters can hold them.
    pub open spec fn of_counts(completed: nat, uncompleted: nat) -> Option<DailyStats> {
        if completed + uncompleted <= u32::MAX {
            Some(
                DailyStats {
                    total: (completed + uncompleted) as u32,
                    completed: completed as u32,
                    uncompleted: uncompleted as u32,
                },
            )
        } else {
            None
        }
    }

    /// The counts of a day with `completed` checked and `uncompleted` unchecked
    /// boxes; `None` where their sum is more than a counter holds.
    pub fn from_counts(completed: usize, uncompleted: usize) -> (r: Option<DailyStats>)
        ensures
            r == DailyStats::of_counts(completed as nat, uncompleted as nat),
            r matches Some(stats) ==> stats.consistent(),
    {
        if completed > u32::MAX as usize || uncompleted > u32::MAX as usize {
            return None;
        }
        let done: u32 = completed as u32;
        let open: u32 = uncompleted as u32;
        match done.checked_add(open) {
            Some(total) => Some(DailyStats { total, completed: done, uncompleted: open }),
            None => None,
        }
    }

    /// Whether the day has tasks and all of them are completed.
    pub fn is_perfect(&self) -> (b: bool)
        ensures
            b == self.perfect(),
    {
        self.total > 0 && self.uncompleted == 0
    }
}

impl Default for DailyStats {
    fn default() -> (r: Self)
        ensures
            r == (DailyStats { total: 0, completed: 0, uncompleted: 0 }),
    {
        DailyStats { total: 0, completed: 0, uncompleted: 0 }
    }
}

/// One entry of the daily mapping.
#[derive(Clone, Copy, Debug, PartialEq, Eq, Structural)]
pub struct DayRecord {
    pub day: Day,
    pub stats: DailyStats,
}

/// The days of `s` are valid and strictly ascending.
pub open spec fn ascending(s: Seq<DayRecord>) -> bool {
    &&& forall|i: int| 0 <= i < s.len() ==> (#[trigger] s[i]).day.wf()
    &&& forall|i: int, j: int|
        0 <= i < j < s.len() ==> (#[trigger] s[i]).day.number() < (#[trigger] s[j]).day.number()
}

/// `s` holds an entry for the day with number `day`.
pub open spec fn has_day(s: Seq<DayRecord>, day: int) -> bool {
    exists|i: int| 0 <= i < s.len() && (#[trigger] s[i]).day.number() == day
}

/// An index at which `s` holds the day with number `day`.
pub open spec fn index_of_day(s: Seq<DayRecord>, day: int) -> int {
    choose|i: int| 0 <= i < s.len() && (#[trigger] s[i]).day.number() == day
}

/// The mapping that `s` lists: from a day's number to its counts.
pub open spec fn mapping(s: Seq<DayRecord>) -> Map<int, DailyStats> {
    Map::new(|day: int| has_day(s, day), |day: int| s[index_of_day(s, day)].stats)
}

/// In an ascending list each entry is the one that the mapping holds for its day.
pub proof fn lemma_mapping_at(s: Seq<DayRecord>, i: int)
    requires
        ascending(s),
        0 <= i < s.len(),
    ensures
        mapping(s).contains_key(s[i].day.number()),
        mapping(s)[s[i].day.number()] == s[i].stats,
        index_of_day(s, s[i].day.number()) == i,
{
    let day = s[i].day.number();
    assert(has_day(s, day));
    let k = index_of_day(s, day);
    if k < i {
        assert(s[k].day.number() < s[i].day.number());
    }
    if i < k {
        assert(s[i].day.number() < s[k].day.number());
    }
}

/// Two ascending lists of the same mapping are the same list.
pub proof fn lemma_mapping_is_injective(a: Seq<DayRecord>, b: Seq<DayRecord>)
    requires
        ascending(a),
        ascending(b),
        mapping(a) == mapping(b),
    ensures
        a == b,
    decreases a.len(),
{
    if a.len() == 0 {
        if b.len() > 0 {
            lemma_mapping_at(b, 0);
            assert(has_day(a, b[0].day.number()));
        }
        assert(a =~= b);
    } else {
        lemma_mapping_at(a, a.len() - 1);
        let top = a.last().day.number();
        assert(has_day(b, top));
        let k = index_of_day(b, top);
        lemma_mapping_at(b, k);
        if k < b.len() - 1 {
            // a day above every day of `a` would stand in `b`
            lemma_mapping_at(b, b.len() - 1);
            let above = b.last().day.number();
            assert(b[k].day.number() < above);
            assert(has_day(a, above));
            let j = index_of_day(a, above);
            if j < a.len() - 1 {
                assert(a[j].day.number() < a[a.len() - 1].day.number());
            }
        }
        assert(k == b.len() - 1);
        assert(b.last().day.number() == top);
        assert(a.last().stats == b.last().stats);
        a.last().day.lemma_same_number(b.last().day);
        assert(a.last() == b.last());
        let a0 = a.drop_last();
        let b0 = b.drop_last();
        assert forall|day: int| has_day(a0, day) == has_day(b0, day) by {
            lemma_drop_last_days(a, day);
            lemma_drop_last_days(b, day);
            assert(mapping(a).contains_key(day) == has_day(a, day));
            assert(mapping(b).contains_key(day) == has_day(b, day));
        }
        assert forall|day: int| has_day(a0, day) implies mapping(a0)[day] == mapping(b0)[day] by {
            lemma_drop_last_days(a, day);
            lemma_drop_last_days(b, day);
            let i = index_of_day(a0, day);
            let j = index_of_day(b0, day);
            lemma_mapping_at(a0, i);
            lemma_mapping_at(b0, j);
            lemma_mapping_at(a, i);
            lemma_mapping_at(b, j);
            assert(a0[i] == a[i]);
            assert(b0[j] == b[j]);
            assert(mapping(a)[day] == mapping(b)[day]);
        }
        assert(mapping(a0) =~= mapping(b0));
        lemma_mapping_is_injective(a0, b0);
        assert(a =~= a0.push(a.last()));
        assert(b =~= b0.push(b.last()));
    }
}

/// Without its last entry an ascending list holds the same days but the last.
pub proof fn lemma_drop_last_days(s: Seq<DayRecord>, day: int)
    requires
        ascending(s),
        s.len() > 0,
    ensures
        ascending(s.drop_last()),
        has_day(s.drop_last(), day) <==> has_day(s, day) && day != s.last().day.number(),
{
    let s0 = s.drop_last();
    assert forall|i: int| 0 <= i < s0.len() implies (#[trigger] s0[i]).day.wf() by {
        assert(s0[i] == s[i]);
    }
    assert forall|i: int, j: int| 0 <= i < j < s0.len() implies (#[trigger] s0[i]).day.number() < (
    #[trigger] s0[j]).day.number() by {
        assert(s0[i] == s[i]);
        assert(s0[j] == s[j]);
    }
    if has_day(s0, day) {
        let i = index_of_day(s0, day);
        assert(s0[i] == s[i]);
        assert(s[i].day.number() < s[s.len() - 1].day.number());
        assert(has_day(s, day));
    }
    if has_day(s, day) && day != s.last().day.number() {
        let i = index_of_day(s, day);
        assert(i < s.len() - 1);
        assert(s0[i] == s[i]);
        assert(has_day(s0, day));
    }
}

/// An ascending list has fewer entries than there are day numbers.
pub proof fn lemma_ascending_len(s: Seq<DayRecord>)
    requires
        ascending(s),
    ensures
        s.len() < 2 * ORDINAL_LIMIT,
        s.len() > 0 ==> s.len() <= s.last().day.number() - s[0].day.number() + 1,
    decreases s.len(),
{
    if s.len() > 1 {
        lemma_drop_last_days(s, 0);
        lemma_ascending_len(s.drop_last());
        let s0 = s.drop_last();
        assert(s0.last() == s[s.len() - 2]);
        assert(s0[0] == s[0]);
        assert(s[s.len() - 2].day.number() < s[s.len() - 1].day.number());
    }
    if s.len() > 0 {
        assert(s[0].day.wf());
        assert(s[s.len() - 1].day.wf());
    }
}

/// An ascending list has as many entries as its mapping has days.
pub proof fn lemma_mapping_len(s: Seq<DayRecord>)
    requires
        ascending(s),
    ensures
        mapping(s).dom().finite(),
        mapping(s).dom().len() == s.len(),
    decreases s.len(),
{
    if s.len() == 0 {
        assert(mapping(s).dom() =~= Set::<int>::empty());
    } else {
        let head = s.drop_last();
        let day = s.last().day.number();
        lemma_drop_last_days(s, day);
        lemma_mapping_len(head);
        assert forall|d: int| mapping(s).dom().contains(d) <==> mapping(head).dom().insert(
            day,
        ).contains(d) by {
            lemma_drop_last_days(s, d);
            if d == day {
                assert(s[s.len() - 1].day.number() == day);
            }
        }
        assert(mapping(s).dom() =~= mapping(head).dom().insert(day));
        assert(!mapping(head).dom().contains(day));
    }
}

/// The daily mapping.
#[derive(Debug)]
pub struct DailyLog {
    entries: Vec<DayRecord>,
}

impl Clone for DailyLog {
    fn clone(&self) -> (r: Self)
        ensures
            r.records() == self.records(),
    {
        self.duplicate()
    }
}

impl View for DailyLog {
    type V = Map<int, DailyStats>;

    /// The mapping from a day's number to its counts.
    open spec fn view(&self) -> Map<int, DailyStats> {
        mapping(self.records())
    }
}

impl DailyLog {
    /// The entries in ascending order of day.
    pub closed spec fn records(&self) -> Seq<DayRecord> {
        self.entries@
    }

    /// The entries are in strictly ascending order of day: this holds of every
    /// daily mapping.
    #[verifier::type_invariant]
    pub open spec fn wf(&self) -> bool {
        ascending(self.records())
    }

    /// The mapping without any day.
    pub fn new() -> (r: DailyLog)
        ensures
            r.records() == Seq::<DayRecord>::empty(),
            r@ == Map::<int, DailyStats>::empty(),
    {
        let r = DailyLog { entries: Vec::new() };
        assert(r@ =~= Map::<int, DailyStats>::empty());
        r
    }

    /// How many days the mapping holds.
    pub fn len(&self) -> (n: usize)
        ensures
            n == self.records().len(),
    {
        self.entries.len()
    }

    /// The entry at `index` in ascending order of day.
    pub fn record(&self, index: usize) -> (r: DayRecord)
        requires
            index < self.records().len(),
        ensures
            r == self.records()[index as int],
    {
        self.entries[index]
    }

    /// The entries in ascending order of day.
    pub fn to_vec(&self) -> (r: Vec<DayRecord>)
        ensures
            r@ == self.records(),
    {
        let mut r: Vec<DayRecord> = Vec::new();
        let mut i: usize = 0;
        while i < self.entries.len()
            invariant
                i <= self.entries.len(),
                r@ == self.entries@.take(i as int),
            decreases self.entries.len() - i,
        {
            r.push(self.entries[i]);
            i += 1;
        }
        assert(self.entries@.take(i as int) =~= self.entries@);
        r
    }

    /// A copy of the mapping.
    pub fn duplicate(&self) -> (r: DailyLog)
        ensures
            r.records() == self.records(),
    {
        proof {
            use_type_invariant(self);
        }
        DailyLog { entries: self.to_vec() }
    }

    /// The first index whose day is not before `day`.
    fn lower_bound(&self, day: Day) -> (k: usize)
        ensures
            self.wf(),
            k <= self.records().len(),
            forall|i: int| 0 <= i < k ==> (#[trigger] self.records()[i]).day.number() < day.number(),
            forall|i: int|
                k <= i < self.records().len() ==> (#[trigger] self.records()[i]).day.number()
                    >= day.number(),
    {
        proof {
            use_type_invariant(self);
        }
        let mut lo: usize = 0;
        let mut hi: usize = self.entries.len();
        while lo < hi
            invariant
                lo <= hi <= self.entries.len(),
                self.wf(),
                forall|i: int|
                    0 <= i < lo ==> (#[trigger] self.records()[i]).day.number() < day.number(),
                forall|i: int|
                    hi <= i < self.records().len() ==> (#[trigger] self.records()[i]).day.number()
                        >= day.number(),
            decreases hi - lo,
        {
            let mid: usize = lo + (hi - lo) / 2;
            if self.entries[mid].day.is_before(&day) {
                assert forall|i: int| 0 <= i < mid + 1 implies (
                #[trigger] self.records()[i]).day.number() < day.number() by {
                    if i < mid {
                        assert(self.records()[i].day.number() < self.records()[mid as int].day.number());
                    }
                }
                lo = mid + 1;
            } else {
                assert forall|i: int| mid <= i < self.records().len() implies (
                #[trigger] self.records()[i]).day.number() >= day.number() by {
                    if mid < i {
                        assert(self.records()[mid as int].day.number() < self.records()[i].day.number());
                    }
                }
                hi = mid;
            }
        }
        lo
    }

    /// The index of the entry for `day`, if the mapping holds the day.
    pub fn position(&self, day: Day) -> (r: Option<usize>)
        ensures
            match r {
                Some(k) => k < self.records().len() && self.records()[k as int].day.number()
                    == day.number(),
                None => !has_day(self.records(), day.number()),
            },
    {
        let k = self.lower_bound(day);
        if k < self.entries.len() && self.entries[k].day.ordinal() == day.ordinal() {
            Some(k)
        } else {
            proof {
                if has_day(self.records(), day.number()) {
                    let i = index_of_day(self.records(), day.number());
                    assert(self.records()[i].day.number() == day.number());
                }
            }
            None
        }
    }

    /// The counts held for `day`, if the mapping holds the day.
    pub fn get(&self, day: Day) -> (r: Option<DailyStats>)
        ensures
            r == (if self@.contains_key(day.number()) {
                Some(self@[day.number()])
            } else {
                None
            }),
    {
        let k = self.lower_bound(day);
        if k < self.entries.len() && self.entries[k].day.ordinal() == day.ordinal() {
            proof {
                lemma_mapping_at(self.records(), k as int);
            }
            Some(self.entries[k].stats)
        } else {
            proof {
                if has_day(self.records(), day.number()) {
                    let i = index_of_day(self.records(), day.number());
                    assert(self.records()[i].day.number() == day.number());
                }
            }
            None
        }
    }

    /// Sets the counts of `day`, whether or not the mapping held the day.
    pub fn upsert(&mut self, day: Day, stats: DailyStats)
        ensures
            final(self)@ == old(self)@.insert(day.number(), stats),
    {
        proof {
            use_type_invariant(&day);
        }
        let k = self.lower_bound(day);
        let ghost before = self.records();
        let entry = DayRecord { day, stats };
        if k < self.entries.len() && self.entries[k].day.ordinal() == day.ordinal() {
            let mut entries = self.to_vec();
            entries.set(k, entry);
            self.entries = entries;
            proof {
                let after = self.records();
                assert(after == before.update(k as int, entry));
                assert forall|i: int, j: int| 0 <= i < j < after.len() implies (
                #[trigger] after[i]).day.number() < (#[trigger] after[j]).day.number() by {
                    assert(before[i].day.number() < before[j].day.number());
                }
                assert forall|d: int| has_day(after, d) == (has_day(before, d) || d
                    == day.number()) by {
                    if has_day(after, d) {
                        let i = index_of_day(after, d);
                        assert(before[i].day.number() == d);
                    }
                    if has_day(before, d) {
                        let i = index_of_day(before, d);
                        assert(after[i].day.number() == d);
                    }
                    if d == day.number() {
                        assert(after[k as int].day.number() == d);
                    }
                }
                assert forall|d: int| has_day(after, d) implies mapping(after)[d] == mapping(
                    before,
                ).insert(day.number(), stats)[d] by {
                    let i = index_of_day(after, d);
                    lemma_mapping_at(after, i);
                    if i != k {
                        lemma_mapping_at(before, i);
                    }
                }
                assert(mapping(after) =~= mapping(before).insert(day.number(), stats));
            }
        } else {
            let mut entries = self.to_vec();
            entries.insert(k, entry);
            self.entries = entries;
            proof {
                let after = self.records();
                assert(after == before.insert(k as int, entry));
                assert forall|i: int| 0 <= i < after.len() implies (#[trigger] after[i]).day.wf() by {
                    if i < k {
                        assert(after[i] == before[i]);
                    } else if i > k {
                        assert(after[i] == before[i - 1]);
                    }
                }
                assert forall|i: int, j: int| 0 <= i < j < after.len() implies (
                #[trigger] after[i]).day.number() < (#[trigger] after[j]).day.number() by {
                    let bi = if i < k { i } else { i - 1 };
                    let bj = if j < k { j } else { j - 1 };
                    if i != k {
                        assert(after[i] == before[bi]);
                    }
                    if j != k {
                        assert(after[j] == before[bj]);
                    }
                    if i != k && j != k {
                        assert(before[bi].day.number() < before[bj].day.number());
                    }
                }
                assert forall|d: int| has_day(after, d) == (has_day(before, d) || d
                    == day.number()) by {
                    if has_day(after, d) {
                        let i = index_of_day(after, d);
                        if i < k {
                            assert(before[i].day.number() == d);
                        } else if i > k {
                            assert(before[i - 1].day.number() == d);
                        }
                    }
                    if has_day(before, d) {
                        let i = index_of_day(before, d);
                        if i < k {
                            assert(after[i].day.number() == d);
                        } else {
                            assert(after[i + 1].day.number() == d);
                        }
                    }
                    if d == day.number() {
                        assert(after[k as int].day.number() == d);
                    }
                }
                assert forall|d: int| has_day(after, d) implies mapping(after)[d] == mapping(
                    before,
                ).insert(day.number(), stats)[d] by {
                    let i = index_of_day(after, d);
                    lemma_mapping_at(after, i);
                    if i < k {
                        lemma_mapping_at(before, i);
                    } else if i > k {
                        lemma_mapping_at(before, i - 1);
                    }
                }
                assert(mapping(after) =~= mapping(before).insert(day.number(), stats));
            }
        }
    }

    /// Takes `day` out of the mapping, if the mapping holds it.
    pub fn remove(&mut self, day: Day)
        ensures
            final(self)@ == old(self)@.remove(day.number()),
    {
        let k = self.lower_bound(day);
        let ghost before = self.records();
        if k < self.entries.len() && self.entries[k].day.ordinal() == day.ordinal() {
            let mut entries = self.to_vec();
            entries.remove(k);
            self.entries = entries;
            proof {
                let after = self.records();
                assert(after == before.remove(k as int));
                assert forall|i: int| 0 <= i < after.len() implies (#[trigger] after[i]).day.wf() by {
                    if i < k {
                        assert(after[i] == before[i]);
                    } else {
                        assert(after[i] == before[i + 1]);
                    }
                }
                assert forall|i: int, j: int| 0 <= i < j < after.len() implies (
                #[trigger] after[i]).day.number() < (#[trigger] after[j]).day.number() by {
                    let bi = if i < k { i } else { i + 1 };
                    let bj = if j < k { j } else { j + 1 };
                    assert(after[i] == before[bi]);
                    assert(after[j] == before[bj]);
                    assert(before[bi].day.number() < before[bj].day.number());
                }
                assert forall|d: int| has_day(after, d) == (has_day(before, d) && d
                    != day.number()) by {
                    if has_day(after, d) {
                        let i = index_of_day(after, d);
                        let bi = if i < k { i } else { i + 1 };
                        assert(after[i] == before[bi]);
                        assert(before[bi].day.number() == d);
                        if bi < k {
                            assert(before[bi].day.number() < before[k as int].day.number());
                        } else {
                            assert(before[k as int].day.number() < before[bi].day.number());
                        }
                    }
                    if has_day(before, d) && d != day.number() {
                        let i = index_of_day(before, d);
                        if i < k {
                            assert(after[i].day.number() == d);
                        } else {
                            assert(after[i - 1] == before[i]);
                            assert(after[i - 1].day.number() == d);
                        }
                    }
                }
                assert forall|d: int| has_day(after, d) implies mapping(after)[d] == mapping(
                    before,
                ).remove(day.number())[d] by {
                    let i = index_of_day(after, d);
                    lemma_mapping_at(after, i);
                    if i < k {
                        lemma_mapping_at(before, i);
                    } else {
                        lemma_mapping_at(before, i + 1);
                    }
                }
                assert(mapping(after) =~= mapping(before).remove(day.number()));
            }
        } else {
            proof {
                if has_day(before, day.number()) {
                    let i = index_of_day(before, day.number());
                    assert(before[i].day.number() == day.number());
                }
                assert(mapping(before) =~= mapping(before).remove(day.number()));
            }
        }
    }
}

} // verus!
