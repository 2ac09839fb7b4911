use vstd::prelude::*;
use crate::error::TrackError;
use crate::model::{is_sorted, notes_unique, days_unique, starts_no_later, DayEntry, MonthEntry, Note, WorkEntry};
use crate::text::{decimal, push_decimal};

verus! {

/// The file name of a month's record: `tt_<year>_<month>.json`.
pub open spec fn datafile_name(year: nat, month: nat) -> Seq<char> {
    seq!['t', 't', '_'] + decimal(year) + seq!['_'] + decimal(month) + seq!['.', 'j', 's', 'o', 'n']
}

/// The directory that holds the records, inside the home directory `home`.
pub open spec fn work_dir_path(home: Seq<char>) -> Seq<char> {
    home + seq!['/', '.', 't', 't', '/']
}

/// The directory that holds the records of the user whose home is `home`.
pub fn get_work_dir(home: &str) -> (r: String)
    ensures
        r@ == work_dir_path(home@),
{
    let mut out = String::from_str(home);
    out.append("/.tt/");
    proof { reveal_strlit("/.tt/"); }
    assert(out@ =~= work_dir_path(home@));
    out
}

/// Where the record of `year`/`month` is kept, under `work_dir` (which ends
/// with a separator).
pub fn get_current_datafile(work_dir: &str, year: u32, month: u32) -> (r: String)
    ensures
        r@ == work_dir@ + datafile_name(year as nat, month as nat),
{
    let mut out = String::from_str(work_dir);
    out.append("tt_");
    push_decimal(&mut out, year as u64);
    out.append("_");
    push_decimal(&mut out, month as u64);
    out.append(".json");
    proof {
        reveal_strlit("tt_");
        reveal_strlit("_");
        reveal_strlit(".json");
    }
    assert(out@ =~= work_dir@ + datafile_name(year as nat, month as nat));
    out
}

fn entries_sorted(s: &Vec<WorkEntry>) -> (r: bool)
    ensures
        r == is_sorted(s@),
{
    let mut i: usize = 0;
    while i < s.len()
        invariant
            0 <= i <= s@.len(),
            forall|a: int, b: int| 0 <= a < b < s@.len() && a < i ==> starts_no_later(#[trigger] s@[a], #[trigger] s@[b]),
        decreases s@.len() - i,
    {
        let mut j: usize = i + 1;
        while j < s.len()
            invariant
                i < s@.len(),
                i + 1 <= j <= s@.len(),
                forall|a: int, b: int| 0 <= a < b < s@.len() && a < i ==> starts_no_later(#[trigger] s@[a], #[trigger] s@[b]),
                forall|b: int| i < b < j ==> starts_no_later(s@[i as int], #[trigger] s@[b]),
            decreases s@.len() - j,
        {
            if !(s[i].hour < s[j].hour || (s[i].hour == s[j].hour && s[i].minute <= s[j].minute)) {
                return false;
            }
            j = j + 1;
        }
        i = i + 1;
    }
    true
}

fn titles_distinct(n: &Vec<Note>) -> (r: bool)
    ensures
        r == notes_unique(n@),
{
    let mut i: usize = 0;
    while i < n.len()
        invariant
            0 <= i <= n@.len(),
            forall|a: int, b: int| 0 <= a < b < n@.len() && a < i ==> (#[trigger] n@[a]).title@ != (#[trigger] n@[b]).title@,
        decreases n@.len() - i,
    {
        let mut j: usize = i + 1;
        while j < n.len()
            invariant
                i < n@.len(),
                i + 1 <= j <= n@.len(),
                forall|a: int, b: int| 0 <= a < b < n@.len() && a < i ==> (#[trigger] n@[a]).title@ != (#[trigger] n@[b]).title@,
                forall|b: int| i < b < j ==> n@[i as int].title@ != (#[trigger] n@[b]).title@,
            decreases n@.len() - j,
        {
            if n[i].title == n[j].title {
                return false;
            }
            j = j + 1;
        }
        i = i + 1;
    }
    true
}

fn day_numbers_distinct(d: &Vec<DayEntry>) -> (r: bool)
    ensures
        r == days_unique(d@),
{
    let mut i: usize = 0;
    while i < d.len()
        invariant
            0 <= i <= d@.len(),
            forall|a: int, b: int| 0 <= a < b < d@.len() && a < i ==> (#[trigger] d@[a]).day != (#[trigger] d@[b]).day,
        decreases d@.len() - i,
    {
        let mut j: usize = i + 1;
        while j < d.len()
            invariant
                i < d@.len(),
                i + 1 <= j <= d@.len(),
                forall|a: int, b: int| 0 <= a < b < d@.len() && a < i ==> (#[trigger] d@[a]).day != (#[trigger] d@[b]).day,
                forall|b: int| i < b < j ==> d@[i as int].day != (#[trigger] d@[b]).day,
            decreases d@.len() - j,
        {
            if d[i].day == d[j].day {
                return false;
            }
            j = j + 1;
        }
        i = i + 1;
    }
    true
}

impl MonthEntry {
    /// Whether the record keeps its rules: day numbers distinct, each day's
    /// entries in time order, each day's note titles distinct.
    pub fn is_well_formed(&self) -> (r: bool)
        ensures
            r == self.wf(),
    {
        if !day_numbers_distinct(&self.days) {
            return false;
        }
        let mut i: usize = 0;
        while i < self.days.len()
            invariant
                0 <= i <= self.days@.len(),
                forall|k: int| 0 <= k < i ==> (#[trigger] self.days@[k]).wf(),
            decreases self.days@.len() - i,
        {
            if !entries_sorted(&self.days[i].entries) || !titles_distinct(&self.days[i].notes) {
                return false;
            }
            i = i + 1;
        }
        true
    }
}

/// The record of `year`/`month`, from what storage held: `stored` is `None`
/// when there is no record, and otherwise the decoded record or the error
/// that decoding gave. A missing record gives an empty month; a decoded one
/// is returned as it is.
pub fn load(year: u32, month: u32, stored: Option<Result<MonthEntry, TrackError>>) -> (r: Result<MonthEntry, TrackError>)
    ensures
        match stored {
            None => r matches Ok(m) && m.year == year && m.month == month && m.days@.len() == 0,
            Some(x) => r == x,
        },
{
    match stored {
        None => Ok(MonthEntry::new(year, month)),
        Some(x) => x,
    }
}

} // verus!
