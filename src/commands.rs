use vstd::prelude::*;
use crate::error::TrackError;
use crate::model::{day_index, recorded, MonthEntry};
use crate::text::{number_value, parse_time, splits_time_at};

verus! {

/// Logs work on `project` on day `day` of the month: at the time written in
/// `time` (`HHhMM`), or at `now_hour`:`now_minute` when no time is given.
/// A time that cannot be read is an `InvalidTimeFormat` error, and the month
/// is left as it was.
pub fn log(
    month_entry: &mut MonthEntry,
    project: String,
    time: Option<&str>,
    day: u32,
    now_hour: u32,
    now_minute: u32,
) -> (r: Result<(), TrackError>)
    ensures
        old(month_entry).wf() ==> final(month_entry).wf(),
        match time {
            None => r is Ok && recorded(*old(month_entry), *final(month_entry), day, now_hour, now_minute, project),
            Some(t) => if exists|k: int| splits_time_at(t@, k) {
                r is Ok && exists|k: int, h: u32, m: u32|
                    splits_time_at(t@, k) && h as int == number_value(t@.subrange(0, k))
                        && m as int == number_value(t@.subrange(k + 1, t@.len() as int))
                        && recorded(*old(month_entry), *final(month_entry), day, h, m, project)
            } else {
                r == Err::<(), TrackError>(TrackError::InvalidTimeFormat) && *final(month_entry) == *old(month_entry)
            },
        },
{
    let (hour, minute) = match time {
        None => (now_hour, now_minute),
        Some(t) => match parse_time(t) {
            Ok(hm) => hm,
            Err(e) => {
                return Err(e);
            },
        },
    };
    month_entry.record_entry(day, hour, minute, project);
    Ok(())
}

impl MonthEntry {
    /// The title of the last entry of day `day`, if the month holds that day
    /// and it has an entry.
    pub fn latest_title(&self, day: u32) -> (r: Option<String>)
        ensures
            match day_index(self.days@, day) {
                Some(i) => if self.days@[i].entries@.len() > 0 {
                    r matches Some(t) && t@ == self.days@[i].entries@.last().title@
                } else {
                    r is None
                },
                None => r is None,
            },
    {
        match self.find_day(day) {
            None => None,
            Some(i) => {
                let n = self.days[i].entries.len();
                if n == 0 {
                    None
                } else {
                    Some(self.days[i].entries[n - 1].title.clone())
                }
            },
        }
    }
}

/// The note body to edit for day `day`: the note on the title of the day's
/// last entry, empty when that title has none. `None` when the day is
/// missing or has no entry.
pub fn note_to_edit(month_entry: &MonthEntry, day: u32) -> (r: Option<String>)
    ensures
        match day_index(month_entry.days@, day) {
            Some(i) => if month_entry.days@[i].entries@.len() > 0 {
                let d = month_entry.days@[i];
                let t = d.entries@.last().title@;
                r matches Some(b) && (if exists|k: int| 0 <= k < d.notes@.len() && (#[trigger] d.notes@[k]).title@ == t {
                    exists|k: int| 0 <= k < d.notes@.len() && (#[trigger] d.notes@[k]).title@ == t && b@ == d.notes@[k].body@
                } else {
                    b@.len() == 0
                })
            } else {
                r is None
            },
            None => r is None,
        },
{
    match month_entry.find_day(day) {
        None => None,
        Some(i) => {
            match month_entry.latest_title(day) {
                None => None,
                Some(t) => match month_entry.days[i].note(&t) {
                    Some(b) => Some(b),
                    None => Some(String::new()),
                },
            }
        },
    }
}

/// Sets the note on the title of the last entry of day `day` to `body`.
/// Returns `false`, changing nothing, when the day is missing or has no entry.
pub fn write(month_entry: &mut MonthEntry, day: u32, body: String) -> (r: bool)
    ensures
        old(month_entry).wf() ==> final(month_entry).wf(),
        final(month_entry).year == old(month_entry).year,
        final(month_entry).month == old(month_entry).month,
        match day_index(old(month_entry).days@, day) {
            Some(i) => if old(month_entry).days@[i].entries@.len() > 0 {
                let d = old(month_entry).days@[i];
                let t = d.entries@.last().title@;
                &&& r
                &&& final(month_entry).days@.len() == old(month_entry).days@.len()
                &&& forall|j: int| 0 <= j < old(month_entry).days@.len() && j != i
                    ==> final(month_entry).days@[j] == old(month_entry).days@[j]
                &&& final(month_entry).days@[i].day == d.day
                &&& final(month_entry).days@[i].entries@ == d.entries@
                &&& exists|k: int| 0 <= k < final(month_entry).days@[i].notes@.len()
                    && (#[trigger] final(month_entry).days@[i].notes@[k]).title@ == t
                    && final(month_entry).days@[i].notes@[k].body@ == body@
                &&& forall|k: int| 0 <= k < d.notes@.len() && (#[trigger] d.notes@[k]).title@ != t
                    ==> final(month_entry).days@[i].notes@[k] == d.notes@[k]
                &&& final(month_entry).days@[i].notes@.len() == d.notes@.len() + if exists|k: int|
                    0 <= k < d.notes@.len() && (#[trigger] d.notes@[k]).title@ == t {
                    0int
                } else {
                    1int
                }
            } else {
                !r && *final(month_entry) == *old(month_entry)
            },
            None => !r && *final(month_entry) == *old(month_entry),
        },
{
    let title = match month_entry.latest_title(day) {
        None => {
            return false;
        },
        Some(t) => t,
    };
    let i = match month_entry.find_day(day) {
        None => {
            return false;
        },
        Some(i) => i,
    };
    let ghost before = month_entry.days@;
    let mut d = month_entry.days.remove(i);
    d.set_note(title, body);
    month_entry.days.insert(i, d);
    proof {
        let after = month_entry.days@;
        assert forall|j: int| 0 <= j < after.len() && j != i as int implies after[j] == before[j] by {}
        if old(month_entry).wf() {
            assert(before[i as int].wf());
            assert forall|a: int, b: int| 0 <= a < b < after.len() implies
                (#[trigger] after[a]).day != (#[trigger] after[b]).day by {
                assert(before[a].day != before[b].day);
            }
            assert forall|j: int| 0 <= j < after.len() implies (#[trigger] after[j]).wf() by {
                if j != i as int {
                    assert(after[j] == before[j]);
                }
            }
        }
        let od = before[i as int];
        let t = od.entries@.last().title@;
        let nd = after[i as int];
        if exists|k: int| 0 <= k < od.notes@.len() && (#[trigger] od.notes@[k]).title@ == t {
        } else {
            let n = od.notes@.len() as int;
            assert(nd.notes@[n].title@ == t);
            assert forall|k: int| 0 <= k < od.notes@.len() && (#[trigger] od.notes@[k]).title@ != t
                implies nd.notes@[k] == od.notes@[k] by {}
        }
    }
    true
}

} // verus!
