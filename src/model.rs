use vstd::prelude::*;

verus! {

/// "From this time on, I am working on `title`."
pub struct WorkEntry {
    pub hour: u32,
    pub minute: u32,
    pub title: String,
}

/// A free-text note attached to a title on one day.
pub struct Note {
    pub title: String,
    pub body: String,
}

/// The entries and notes of one day of a month.
pub struct DayEntry {
    pub day: u32,
    pub entries: Vec<WorkEntry>,
    pub notes: Vec<Note>,
}

/// Everything recorded in one calendar month.
pub struct MonthEntry {
    pub year: u32,
    pub month: u32,
    pub days: Vec<DayEntry>,
}

/// `a` starts no later than `b`, comparing hours, then minutes.
pub open spec fn starts_no_later(a: WorkEntry, b: WorkEntry) -> bool {
    a.hour < b.hour || (a.hour == b.hour && a.minute <= b.minute)
}

/// The entries are in ascending order of (hour, minute).
pub open spec fn is_sorted(s: Seq<WorkEntry>) -> bool {
    forall|i: int, j: int| 0 <= i < j < s.len() ==> starts_no_later(#[trigger] s[i], #[trigger] s[j])
}

/// Where a new entry `e` goes: after the last entry, scanning from the end,
/// that starts no later than it (so after any entry of the same time).
pub open spec fn insertion_point(s: Seq<WorkEntry>, e: WorkEntry) -> int
    decreases s.len(),
{
    if s.len() == 0 {
        0
    } else if starts_no_later(s.last(), e) {
        s.len() as int
    } else {
        insertion_point(s.drop_last(), e)
    }
}

/// No two notes of a day share a title.
pub open spec fn notes_unique(n: Seq<Note>) -> bool {
    forall|i: int, j: int| 0 <= i < j < n.len() ==> (#[trigger] n[i]).title@ != (#[trigger] n[j]).title@
}

/// No two days of a month share a day number.
pub open spec fn days_unique(d: Seq<DayEntry>) -> bool {
    forall|i: int, j: int| 0 <= i < j < d.len() ==> (#[trigger] d[i]).day != (#[trigger] d[j]).day
}

/// The index of the first day numbered `day` in `d`, if there is one.
pub open spec fn day_index(d: Seq<DayEntry>, day: u32) -> Option<int>
    decreases d.len(),
{
    if d.len() == 0 {
        None
    } else {
        match day_index(d.drop_last(), day) {
            Some(i) => Some(i),
            None => if d.last().day == day { Some(d.len() - 1) } else { None },
        }
    }
}

proof fn lemma_day_index(d: Seq<DayEntry>, day: u32, n: int)
    requires
        0 <= n <= d.len(),
        forall|j: int| 0 <= j < n ==> (#[trigger] d[j]).day != day,
    ensures
        n < d.len() && d[n].day == day ==> day_index(d, day) == Some(n),
        n == d.len() ==> day_index(d, day) is None,
    decreases d.len(),
{
    if d.len() > 0 {
        if n < d.len() {
            if n < d.len() - 1 {
                lemma_day_index(d.drop_last(), day, n);
            } else {
                lemma_day_index(d.drop_last(), day, n);
            }
        } else {
            lemma_day_index(d.drop_last(), day, n - 1);
        }
    }
}

/// `s` in time order, by insertion: each entry in turn goes after every
/// entry before it that starts no later, so entries of the same time keep
/// their order.
pub open spec fn sorted_entries(s: Seq<WorkEntry>) -> Seq<WorkEntry>
    decreases s.len(),
{
    if s.len() == 0 {
        Seq::empty()
    } else {
        let r = sorted_entries(s.drop_last());
        r.insert(insertion_point(r, s.last()), s.last())
    }
}

impl DayEntry {
    /// A day's entries are in time order and its notes have distinct titles.
    pub open spec fn wf(&self) -> bool {
        is_sorted(self.entries@) && notes_unique(self.notes@)
    }

    /// A day with no entries and no notes.
    pub fn new(day: u32) -> (r: DayEntry)
        ensures
            r.day == day,
            r.entries@.len() == 0,
            r.notes@.len() == 0,
            r.wf(),
    {
        DayEntry { day, entries: Vec::new(), notes: Vec::new() }
    }
}

impl MonthEntry {
    /// Each day number occurs at most once, and each day is well formed.
    pub open spec fn wf(&self) -> bool {
        &&& days_unique(self.days@)
        &&& forall|i: int| 0 <= i < self.days@.len() ==> (#[trigger] self.days@[i]).wf()
    }

    /// An empty record for the given month.
    pub fn new(year: u32, month: u32) -> (r: MonthEntry)
        ensures
            r.year == year,
            r.month == month,
            r.days@.len() == 0,
            r.wf(),
    {
        MonthEntry { year, month, days: Vec::new() }
    }

    /// The index of day number `day`, if the month holds it.
    pub fn find_day(&self, day: u32) -> (r: Option<usize>)
        ensures
            match r {
                Some(i) => i < self.days@.len() && self.days@[i as int].day == day
                    && day_index(self.days@, day) == Some(i as int),
                None => day_index(self.days@, day) is None
                    && forall|i: int| 0 <= i < self.days@.len() ==> (#[trigger] self.days@[i]).day != day,
            },
    {
        let mut i: usize = 0;
        while i < self.days.len()
            invariant
                0 <= i <= self.days@.len(),
                forall|k: int| 0 <= k < i ==> (#[trigger] self.days@[k]).day != day,
            decreases self.days@.len() - i,
        {
            if self.days[i].day == day {
                proof { lemma_day_index(self.days@, day, i as int); }
                return Some(i);
            }
            i = i + 1;
        }
        proof { lemma_day_index(self.days@, day, i as int); }
        None
    }
}

/// `b` is `a` after recording `WorkEntry { hour, minute, title }` on day
/// `day`: the entry joins the first day with that number, whose entries are
/// then put in time order, or a new day appended when `a` lacks one;
/// nothing else changes.
pub open spec fn recorded(a: MonthEntry, b: MonthEntry, day: u32, hour: u32, minute: u32, title: String) -> bool {
    let e = WorkEntry { hour, minute, title };
    &&& b.year == a.year
    &&& b.month == a.month
    &&& match day_index(a.days@, day) {
        Some(i) => {
            &&& b.days@.len() == a.days@.len()
            &&& forall|j: int| 0 <= j < a.days@.len() && j != i ==> b.days@[j] == a.days@[j]
            &&& b.days@[i].day == day
            &&& b.days@[i].notes == a.days@[i].notes
            &&& b.days@[i].entries@ == sorted_entries(a.days@[i].entries@.push(e))
        },
        None => {
            &&& b.days@.len() == a.days@.len() + 1
            &&& forall|j: int| 0 <= j < a.days@.len() ==> b.days@[j] == a.days@[j]
            &&& b.days@.last().day == day
            &&& b.days@.last().notes@.len() == 0
            &&& b.days@.last().entries@ == seq![e]
        },
    }
}

proof fn lemma_insertion_point_bounds(s: Seq<WorkEntry>, e: WorkEntry)
    ensures
        0 <= insertion_point(s, e) <= s.len(),
        insertion_point(s, e) > 0 ==> starts_no_later(s[insertion_point(s, e) - 1], e),
        forall|k: int| insertion_point(s, e) <= k < s.len() ==> !starts_no_later(#[trigger] s[k], e),
    decreases s.len(),
{
    if s.len() > 0 && !starts_no_later(s.last(), e) {
        let t = s.drop_last();
        lemma_insertion_point_bounds(t, e);
        assert forall|k: int| insertion_point(s, e) <= k < s.len() implies !starts_no_later(#[trigger] s[k], e) by {
            if k < t.len() {
                assert(s[k] == t[k]);
            }
        }
    }
}

proof fn lemma_insert_keeps_sorted(s: Seq<WorkEntry>, e: WorkEntry)
    requires
        is_sorted(s),
    ensures
        is_sorted(s.insert(insertion_point(s, e), e)),
{
    lemma_insertion_point_bounds(s, e);
    let p = insertion_point(s, e);
    let r = s.insert(p, e);
    assert forall|a: int, b: int| 0 <= a < b < r.len() implies starts_no_later(#[trigger] r[a], #[trigger] r[b]) by {
        if b < p {
            assert(r[a] == s[a] && r[b] == s[b]);
        } else if b == p {
            assert(r[a] == s[a]);
            assert(starts_no_later(s[a], s[p - 1]) || a == p - 1);
        } else if a == p {
            assert(r[b] == s[b - 1]);
        } else if a < p {
            assert(r[a] == s[a] && r[b] == s[b - 1]);
        } else {
            assert(r[a] == s[a - 1] && r[b] == s[b - 1]);
        }
    }
}

proof fn lemma_sorted_entries_sorted(s: Seq<WorkEntry>)
    ensures
        is_sorted(sorted_entries(s)),
        sorted_entries(s).len() == s.len(),
    decreases s.len(),
{
    if s.len() > 0 {
        lemma_sorted_entries_sorted(s.drop_last());
        lemma_insertion_point_bounds(sorted_entries(s.drop_last()), s.last());
        lemma_insert_keeps_sorted(sorted_entries(s.drop_last()), s.last());
    }
}

/// Sorting a day that is already in time order leaves it as it is; so
/// recording on such a day puts the new entry at its insertion point.
pub proof fn sorting_keeps_sorted_days(s: Seq<WorkEntry>)
    requires
        is_sorted(s),
    ensures
        sorted_entries(s) == s,
    decreases s.len(),
{
    if s.len() > 0 {
        let t = s.drop_last();
        assert(is_sorted(t));
        sorting_keeps_sorted_days(t);
        if t.len() > 0 {
            assert(starts_no_later(t.last(), s.last()));
        }
        assert(insertion_point(t, s.last()) == t.len());
        assert(t.insert(t.len() as int, s.last()) =~= s);
    }
}

/// Recording an entry leaves the day it was recorded on in time order,
/// whatever order that day was in before.
pub proof fn recording_sorts_the_day(a: MonthEntry, b: MonthEntry, day: u32, hour: u32, minute: u32, title: String)
    requires
        recorded(a, b, day, hour, minute, title),
    ensures
        exists|i: int| 0 <= i < b.days@.len() && (#[trigger] b.days@[i]).day == day && is_sorted(b.days@[i].entries@),
{
    let e = WorkEntry { hour, minute, title };
    lemma_day_index_in_range(a.days@, day);
    match day_index(a.days@, day) {
        Some(i) => {
            lemma_sorted_entries_sorted(a.days@[i].entries@.push(e));
            assert(b.days@[i].day == day);
        },
        None => {
            let n = a.days@.len() as int;
            assert(b.days@[n] == b.days@.last());
            assert(b.days@[n].day == day);
        },
    }
}

/// Recording is determined by what is recorded: two recordings of the same
/// day, time and title on one month give the same days, entries and notes.
/// So times that read as the same hour and minute (`7h5`, `07h05`) leave
/// the month in the same state.
pub proof fn recording_is_determined(a: MonthEntry, b1: MonthEntry, b2: MonthEntry, day: u32, hour: u32, minute: u32, title: String)
    requires
        recorded(a, b1, day, hour, minute, title),
        recorded(a, b2, day, hour, minute, title),
    ensures
        b1.year == b2.year,
        b1.month == b2.month,
        b1.days@.len() == b2.days@.len(),
        forall|i: int| 0 <= i < b1.days@.len() ==> (#[trigger] b1.days@[i]).day == b2.days@[i].day
            && b1.days@[i].entries@ == b2.days@[i].entries@ && b1.days@[i].notes@ == b2.days@[i].notes@,
{
    match day_index(a.days@, day) {
        Some(i) => {},
        None => {
            let n = a.days@.len() as int;
            assert(b1.days@[n] == b1.days@.last() && b2.days@[n] == b2.days@.last());
            assert forall|j: int| 0 <= j < b1.days@.len() implies (#[trigger] b1.days@[j]).day == b2.days@[j].day
                && b1.days@[j].entries@ == b2.days@[j].entries@ && b1.days@[j].notes@ == b2.days@[j].notes@ by {
                if j == n {
                    assert(b1.days@[n].notes@ =~= b2.days@[n].notes@);
                }
            }
        },
    }
}

proof fn lemma_day_index_in_range(d: Seq<DayEntry>, day: u32)
    ensures
        day_index(d, day) matches Some(i) ==> 0 <= i < d.len() && d[i].day == day,
        day_index(d, day) is None ==> forall|j: int| 0 <= j < d.len() ==> (#[trigger] d[j]).day != day,
    decreases d.len(),
{
    if d.len() > 0 {
        lemma_day_index_in_range(d.drop_last(), day);
        assert forall|j: int| 0 <= j < d.len() - 1 implies d[j] == d.drop_last()[j] by {}
    }
}

/// Recording an entry keeps a month well formed: day numbers stay distinct
/// and every day stays in time order.
pub proof fn recording_keeps_month_well_formed(a: MonthEntry, b: MonthEntry, day: u32, hour: u32, minute: u32, title: String)
    requires
        a.wf(),
        recorded(a, b, day, hour, minute, title),
    ensures
        b.wf(),
        days_unique(b.days@),
{
    let e = WorkEntry { hour, minute, title };
    lemma_day_index_in_range(a.days@, day);
    match day_index(a.days@, day) {
        Some(i) => {
            lemma_sorted_entries_sorted(a.days@[i].entries@.push(e));
            assert forall|x: int, y: int| 0 <= x < y < b.days@.len() implies (#[trigger] b.days@[x]).day != (#[trigger] b.days@[y]).day by {
                assert(a.days@[x].day != a.days@[y].day);
            }
            assert forall|j: int| 0 <= j < b.days@.len() implies (#[trigger] b.days@[j]).wf() by {
                if j != i {
                    assert(a.days@[j].wf());
                } else {
                    assert(a.days@[i].wf());
                }
            }
        },
        None => {
            let n = a.days@.len() as int;
            assert(b.days@[n] == b.days@.last());
            assert forall|x: int, y: int| 0 <= x < y < b.days@.len() implies (#[trigger] b.days@[x]).day != (#[trigger] b.days@[y]).day by {
                if y < n {
                    assert(a.days@[x].day != a.days@[y].day);
                } else {
                    assert(a.days@[x].day != day);
                }
            }
            assert forall|j: int| 0 <= j < b.days@.len() implies (#[trigger] b.days@[j]).wf() by {
                if j < n {
                    assert(a.days@[j].wf());
                }
            }
        },
    }
}

impl DayEntry {
    /// The body of the note on `title`, if the day has one.
    pub fn note(&self, title: &String) -> (r: Option<String>)
        ensures
            match r {
                Some(b) => exists|k: int|
                    0 <= k < self.notes@.len() && (#[trigger] self.notes@[k]).title@ == title@
                        && b@ == self.notes@[k].body@,
                None => forall|k: int| 0 <= k < self.notes@.len() ==> (#[trigger] self.notes@[k]).title@ != title@,
            },
    {
        let mut k: usize = 0;
        while k < self.notes.len()
            invariant
                0 <= k <= self.notes@.len(),
                forall|j: int| 0 <= j < k ==> (#[trigger] self.notes@[j]).title@ != title@,
            decreases self.notes@.len() - k,
        {
            if self.notes[k].title == *title {
                return Some(self.notes[k].body.clone());
            }
            k = k + 1;
        }
        None
    }

    /// Sets the note on `title` to `body`, replacing the first note it had,
    /// if any.
    pub fn set_note(&mut self, title: String, body: String)
        ensures
            old(self).wf() ==> final(self).wf(),
            final(self).day == old(self).day,
            final(self).entries@ == old(self).entries@,
            (exists|k: int| 0 <= k < old(self).notes@.len() && (#[trigger] old(self).notes@[k]).title@ == title@)
                ==> exists|k: int|
                0 <= k < old(self).notes@.len() && (#[trigger] old(self).notes@[k]).title@ == title@
                    && final(self).notes@.len() == old(self).notes@.len()
                    && final(self).notes@[k].title@ == title@ && final(self).notes@[k].body@ == body@
                    && forall|j: int| 0 <= j < old(self).notes@.len() && j != k ==> final(self).notes@[j] == old(self).notes@[j],
            (forall|k: int| 0 <= k < old(self).notes@.len() ==> (#[trigger] old(self).notes@[k]).title@ != title@)
                ==> final(self).notes@ == old(self).notes@.push(Note { title, body }),
    {
        let mut k: usize = 0;
        while k < self.notes.len()
            invariant
                0 <= k <= self.notes@.len(),
                forall|j: int| 0 <= j < k ==> (#[trigger] self.notes@[j]).title@ != title@,
                self.notes@ == old(self).notes@,
                self.entries@ == old(self).entries@,
                self.day == old(self).day,
            decreases self.notes@.len() - k,
        {
            if self.notes[k].title == title {
                let old_note = self.notes.remove(k);
                self.notes.insert(k, Note { title: old_note.title, body });
                assert(self.notes@[k as int].title@ == title@);
                assert(notes_unique(old(self).notes@) ==> notes_unique(self.notes@)) by {
                    if notes_unique(old(self).notes@) {
                    assert forall|a: int, b: int| 0 <= a < b < self.notes@.len() implies
                        (#[trigger] self.notes@[a]).title@ != (#[trigger] self.notes@[b]).title@ by {
                        assert(old(self).notes@[a].title@ != old(self).notes@[b].title@);
                    }
                    }
                }
                return;
            }
            k = k + 1;
        }
        self.notes.push(Note { title, body });
    }
}

impl MonthEntry {
    /// Records that work on `title` started at `hour`:`minute` of day `day`.
    /// The entry joins the first day with that number, or a new empty day
    /// appended when there is none; that day's entries are then sorted by
    /// time, stably, so entries of the same time keep the order in which they
    /// were recorded.
    pub fn record_entry(&mut self, day: u32, hour: u32, minute: u32, title: String)
        ensures
            recorded(*old(self), *final(self), day, hour, minute, title),
            old(self).wf() ==> final(self).wf(),
    {
        let ghost e = WorkEntry { hour, minute, title };
        let idx = match self.find_day(day) {
            Some(i) => i,
            None => {
                self.days.push(DayEntry::new(day));
                self.days.len() - 1
            },
        };
        let ghost before = self.days@;
        let ghost target = self.days@[idx as int];
        let DayEntry { day: number, entries, notes } = self.days.remove(idx);
        let mut entries = entries;
        entries.push(WorkEntry { hour, minute, title });
        assert(entries@ == target.entries@.push(e));
        let entries = sort_entries(entries);
        self.days.insert(idx, DayEntry { day: number, entries, notes });
        proof {
            let after = self.days@;
            assert(after[idx as int].day == target.day);
            assert(after[idx as int].notes == target.notes);
            assert(after[idx as int].entries@ == sorted_entries(target.entries@.push(e)));
            if day_index(old(self).days@, day) is Some {
                assert(before == old(self).days@);
                assert(target.day == day);
            } else {
                assert(target.entries@.len() == 0);
                assert(target.entries@.push(e) =~= seq![e]);
            }
            assert forall|j: int| 0 <= j < after.len() && j != idx as int implies after[j] == before[j] by {}
            if day_index(old(self).days@, day) is None {
                assert(after.last() == after[idx as int]);
                assert(Seq::<WorkEntry>::empty().push(e) =~= seq![e]);
                assert(sorted_entries(seq![e]) =~= seq![e]) by {
                    assert(seq![e].drop_last() =~= Seq::<WorkEntry>::empty());
                    assert(sorted_entries(Seq::<WorkEntry>::empty()) == Seq::<WorkEntry>::empty());
                    assert(insertion_point(Seq::<WorkEntry>::empty(), e) == 0);
                    assert(Seq::<WorkEntry>::empty().insert(0, e) =~= seq![e]);
                }
            }
            if old(self).wf() {
                recording_keeps_month_well_formed(*old(self), *self, day, hour, minute, title);
            }
        }
    }
}

/// `v` in time order, as `sorted_entries` states it.
fn sort_entries(v: Vec<WorkEntry>) -> (r: Vec<WorkEntry>)
    ensures
        r@ == sorted_entries(v@),
{
    let ghost orig = v@;
    let mut rest = v;
    let mut res: Vec<WorkEntry> = Vec::new();
    while rest.len() > 0
        invariant
            rest@.len() <= orig.len(),
            rest@ == orig.subrange(orig.len() - rest@.len(), orig.len() as int),
            res@ == sorted_entries(orig.subrange(0, orig.len() - rest@.len())),
        decreases rest@.len(),
    {
        let ghost n = orig.len() - rest@.len();
        let x = rest.remove(0);
        assert(x == orig[n]);
        insert_entry(&mut res, x);
        proof {
            let next = orig.subrange(0, n + 1);
            assert(next.drop_last() =~= orig.subrange(0, n));
            assert(next.last() == x);
            assert(rest@ =~= orig.subrange(n + 1, orig.len() as int));
        }
    }
    assert(orig.subrange(0, orig.len() as int) =~= orig);
    res
}

proof fn lemma_insertion_point(s: Seq<WorkEntry>, e: WorkEntry, j: int)
    requires
        0 <= j <= s.len(),
        forall|k: int| j <= k < s.len() ==> !starts_no_later(#[trigger] s[k], e),
    ensures
        insertion_point(s, e) == insertion_point(s.subrange(0, j), e),
    decreases s.len() - j,
{
    if j < s.len() {
        assert(s.drop_last().subrange(0, j) =~= s.subrange(0, j));
        lemma_insertion_point(s.drop_last(), e, j);
    } else {
        assert(s.subrange(0, j) =~= s);
    }
}

/// Puts `e` among `entries` at its insertion point.
fn insert_entry(entries: &mut Vec<WorkEntry>, e: WorkEntry)
    ensures
        final(entries)@ == old(entries)@.insert(insertion_point(old(entries)@, e), e),
        is_sorted(old(entries)@) ==> is_sorted(final(entries)@),
{
    let ghost s = entries@;
    let mut j: usize = entries.len();
    while j > 0 && !(entries[j - 1].hour < e.hour
        || (entries[j - 1].hour == e.hour && entries[j - 1].minute <= e.minute))
        invariant
            entries@ == s,
            0 <= j <= s.len(),
            forall|k: int| j <= k < s.len() ==> !starts_no_later(#[trigger] s[k], e),
        decreases j,
    {
        j = j - 1;
    }
    proof {
        lemma_insertion_point(s, e, j as int);
        if j > 0 {
            assert(s.subrange(0, j as int).last() == s[j - 1]);
        }
    }
    entries.insert(j, e);
    proof {
        if is_sorted(s) {
            lemma_insert_keeps_sorted(s, e);
        }
    }
}

} // verus!
