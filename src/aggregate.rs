use vstd::prelude::*;
use crate::model::{DayEntry, MonthEntry, WorkEntry};

verus! {

/// Minutes since midnight at which an entry starts.
pub open spec fn start_minute(e: WorkEntry) -> int {
    e.hour as int * 60 + e.minute as int
}

/// Minutes from the start of `a` to the start of `b`; zero when `b` starts
/// earlier, so that entries out of order never take time away.
pub open spec fn gap(a: WorkEntry, b: WorkEntry) -> int {
    if start_minute(b) >= start_minute(a) {
        start_minute(b) - start_minute(a)
    } else {
        0
    }
}

/// Minutes credited to `t` in a day: each entry but the last is credited
/// to its title with the gap up to the next entry.
pub open spec fn day_minutes(s: Seq<WorkEntry>, t: Seq<char>) -> int
    decreases s.len(),
{
    if s.len() < 2 {
        0
    } else {
        day_minutes(s.drop_last(), t) + if s[s.len() - 2].title@ == t {
            gap(s[s.len() - 2], s.last())
        } else {
            0
        }
    }
}

/// Some entry of the day other than the last has title `t`.
pub open spec fn day_credits(s: Seq<WorkEntry>, t: Seq<char>) -> bool
    decreases s.len(),
{
    s.len() >= 2 && (day_credits(s.drop_last(), t) || s[s.len() - 2].title@ == t)
}

/// Minutes credited to `t` over all days.
pub open spec fn month_minutes(d: Seq<DayEntry>, t: Seq<char>) -> int
    decreases d.len(),
{
    if d.len() == 0 {
        0
    } else {
        month_minutes(d.drop_last(), t) + day_minutes(d.last().entries@, t)
    }
}

/// Some day credits `t`.
pub open spec fn month_credits(d: Seq<DayEntry>, t: Seq<char>) -> bool
    decreases d.len(),
{
    d.len() > 0 && (month_credits(d.drop_last(), t) || day_credits(d.last().entries@, t))
}

/// `x`, or `u64::MAX` where it does not fit.
pub open spec fn capped(x: int) -> int {
    if x > u64::MAX { u64::MAX as int } else { x }
}

/// The total time worked on one title.
pub struct TitleTotal {
    pub title: String,
    pub minutes: u64,
}

/// The titles that a day credits, one for each entry but the last, in order.
pub open spec fn day_titles(s: Seq<WorkEntry>) -> Seq<Seq<char>>
    decreases s.len(),
{
    if s.len() < 2 {
        Seq::empty()
    } else {
        day_titles(s.drop_last()).push(s[s.len() - 2].title@)
    }
}

/// The titles credited over all days, day after day.
pub open spec fn month_titles(d: Seq<DayEntry>) -> Seq<Seq<char>>
    decreases d.len(),
{
    if d.len() == 0 {
        Seq::empty()
    } else {
        month_titles(d.drop_last()) + day_titles(d.last().entries@)
    }
}

/// `s` without repeats, each item kept where it first occurs.
pub open spec fn first_occurrences(s: Seq<Seq<char>>) -> Seq<Seq<char>>
    decreases s.len(),
{
    if s.len() == 0 {
        Seq::empty()
    } else if first_occurrences(s.drop_last()).contains(s.last()) {
        first_occurrences(s.drop_last())
    } else {
        first_occurrences(s.drop_last()).push(s.last())
    }
}

/// The titles of `v`, in order.
pub open spec fn titles_of(v: Seq<TitleTotal>) -> Seq<Seq<char>> {
    v.map_values(|x: TitleTotal| x.title@)
}

/// `v` lists each title credited in `days` once, in the order in which the
/// titles are first credited, with its capped total.
pub open spec fn is_totals_of(days: Seq<DayEntry>, v: Seq<TitleTotal>) -> bool {
    &&& titles_of(v) == first_occurrences(month_titles(days))
    &&& forall|a: int, b: int| 0 <= a < b < v.len() ==> (#[trigger] v[a]).title@ != (#[trigger] v[b]).title@
    &&& forall|k: int| 0 <= k < v.len() ==> month_credits(days, (#[trigger] v[k]).title@)
        && v[k].minutes as int == capped(month_minutes(days, v[k].title@))
    &&& forall|t: Seq<char>| month_credits(days, t) ==> exists|k: int| 0 <= k < v.len() && (#[trigger] v[k]).title@ == t
}

proof fn lemma_day_minutes_nonneg(s: Seq<WorkEntry>, t: Seq<char>)
    ensures
        day_minutes(s, t) >= 0,
        !day_credits(s, t) ==> day_minutes(s, t) == 0,
    decreases s.len(),
{
    if s.len() >= 2 {
        lemma_day_minutes_nonneg(s.drop_last(), t);
    }
}

proof fn lemma_month_minutes_nonneg(d: Seq<DayEntry>, t: Seq<char>)
    ensures
        month_minutes(d, t) >= 0,
        !month_credits(d, t) ==> month_minutes(d, t) == 0,
    decreases d.len(),
{
    if d.len() > 0 {
        lemma_month_minutes_nonneg(d.drop_last(), t);
        lemma_day_minutes_nonneg(d.last().entries@, t);
    }
}

/// A day with one entry credits no title with any time.
pub proof fn single_entry_day_credits_nothing(day: DayEntry, t: Seq<char>)
    requires
        day.entries@.len() == 1,
    ensures
        day_minutes(day.entries@, t) == 0,
        !day_credits(day.entries@, t),
{
}

fn gap_minutes(a: &WorkEntry, b: &WorkEntry) -> (r: u64)
    ensures
        r as int == gap(*a, *b),
{
    let sa = a.hour as u64 * 60 + a.minute as u64;
    let sb = b.hour as u64 * 60 + b.minute as u64;
    if sb >= sa {
        sb - sa
    } else {
        0
    }
}

/// Total minutes per title over all days of the month. Each title that some
/// day credits appears once, in the order in which it is first credited
/// (days in stored order, entries in time order); totals too large for a
/// `u64` are reported as `u64::MAX`.
pub fn totals(month: &MonthEntry) -> (r: Vec<TitleTotal>)
    ensures
        is_totals_of(month.days@, r@),
{
    let mut res: Vec<TitleTotal> = Vec::new();
    assert(titles_of(res@) =~= Seq::<Seq<char>>::empty());
    let days = &month.days;
    let mut i: usize = 0;
    while i < days.len()
        invariant
            0 <= i <= days@.len(),
            titles_of(res@) == first_occurrences(month_titles(days@.subrange(0, i as int))),
            forall|a: int, b: int| 0 <= a < b < res@.len() ==> (#[trigger] res@[a]).title@ != (#[trigger] res@[b]).title@,
            forall|k: int| 0 <= k < res@.len() ==> month_credits(days@.subrange(0, i as int), (#[trigger] res@[k]).title@)
                && res@[k].minutes as int == capped(month_minutes(days@.subrange(0, i as int), res@[k].title@)),
            forall|t: Seq<char>| month_credits(days@.subrange(0, i as int), t) ==> exists|k: int| 0 <= k < res@.len() && (#[trigger] res@[k]).title@ == t,
        decreases days@.len() - i,
    {
        let ghost done = days@.subrange(0, i as int);
        let entries = &days[i].entries;
        let mut j: usize = 0;
        while j < entries.len()
            invariant
                i < days@.len(),
                done == days@.subrange(0, i as int),
                entries@ == days@[i as int].entries@,
                0 <= j <= entries@.len(),
                titles_of(res@) == first_occurrences(month_titles(done) + day_titles(entries@.subrange(0, j as int))),
                forall|a: int, b: int| 0 <= a < b < res@.len() ==> (#[trigger] res@[a]).title@ != (#[trigger] res@[b]).title@,
                forall|k: int| 0 <= k < res@.len() ==> (month_credits(done, (#[trigger] res@[k]).title@)
                    || day_credits(entries@.subrange(0, j as int), res@[k].title@))
                    && res@[k].minutes as int == capped(month_minutes(done, res@[k].title@)
                        + day_minutes(entries@.subrange(0, j as int), res@[k].title@)),
                forall|t: Seq<char>| #![trigger month_credits(done, t)] #![trigger day_credits(entries@.subrange(0, j as int), t)]
                    (month_credits(done, t) || day_credits(entries@.subrange(0, j as int), t))
                    ==> exists|k: int| 0 <= k < res@.len() && (#[trigger] res@[k]).title@ == t,
            decreases entries@.len() - j,
        {
            let ghost before = entries@.subrange(0, j as int);
            let ghost after = entries@.subrange(0, j + 1);
            assert(after.drop_last() =~= before);
            if j > 0 {
                let prev = &entries[j - 1];
                let d = gap_minutes(prev, &entries[j]);
                let ghost t0 = prev.title@;
                assert(after[after.len() - 2] == *prev);
                let ghost old_res = res@;
                let mut k: usize = 0;
                while k < res.len() && !(res[k].title == prev.title)
                    invariant
                        res@ == old_res,
                        t0 == prev.title@,
                        0 <= k <= res@.len(),
                        forall|q: int| 0 <= q < k ==> (#[trigger] res@[q]).title@ != t0,
                    decreases res@.len() - k,
                {
                    k = k + 1;
                }
                proof {
                    lemma_month_minutes_nonneg(done, t0);
                    lemma_day_minutes_nonneg(before, t0);
                }
                if k < res.len() {
                    let item = res.remove(k);
                    let m = item.minutes.saturating_add(d);
                    res.insert(k, TitleTotal { title: item.title, minutes: m });
                    assert forall|q: int| 0 <= q < res@.len() && q != k implies res@[q] == old_res[q] by {}
                } else {
                    proof {
                        if month_credits(done, t0) || day_credits(before, t0) {
                            let q = choose|q: int| 0 <= q < res@.len() && (#[trigger] res@[q]).title@ == t0;
                            assert(res@[q].title@ != t0);
                        }
                    }
                    res.push(TitleTotal { title: prev.title.clone(), minutes: d });
                }
                assert forall|q: int| 0 <= q < res@.len() implies (month_credits(done, (#[trigger] res@[q]).title@)
                    || day_credits(after, res@[q].title@))
                    && res@[q].minutes as int == capped(month_minutes(done, res@[q].title@)
                        + day_minutes(after, res@[q].title@)) by {
                    lemma_month_minutes_nonneg(done, res@[q].title@);
                    lemma_day_minutes_nonneg(before, res@[q].title@);
                    if q != k {
                        assert(res@[q] == old_res[q]);
                    }
                }
                assert forall|t: Seq<char>| (month_credits(done, t) || day_credits(after, t))
                    implies exists|q: int| 0 <= q < res@.len() && (#[trigger] res@[q]).title@ == t by {
                    if t == t0 {
                        assert(res@[k as int].title@ == t0);
                    } else if month_credits(done, t) || day_credits(before, t) {
                        let q = choose|q: int| 0 <= q < old_res.len() && (#[trigger] old_res[q]).title@ == t;
                        if q != k {
                            assert(res@[q] == old_res[q]);
                        }
                    }
                }
                assert forall|a: int, b: int| 0 <= a < b < res@.len() implies (#[trigger] res@[a]).title@ != (#[trigger] res@[b]).title@ by {
                    if a != k && b != k {
                        assert(res@[a] == old_res[a] && res@[b] == old_res[b]);
                    } else if a == k {
                        assert(res@[b] == old_res[b]);
                    } else {
                        assert(res@[a] == old_res[a]);
                    }
                }
                proof {
                    let sq = month_titles(done) + day_titles(before);
                    let sq2 = month_titles(done) + day_titles(after);
                    assert(day_titles(after) == day_titles(before).push(t0));
                    assert(sq2 =~= sq.push(t0));
                    assert(sq2.drop_last() =~= sq);
                    let fo = first_occurrences(sq);
                    assert(fo == titles_of(old_res));
                    if k < old_res.len() {
                        assert(fo[k as int] == t0);
                        assert(fo.contains(t0));
                        assert(titles_of(res@) =~= titles_of(old_res));
                    } else {
                        assert(!fo.contains(t0)) by {
                            if fo.contains(t0) {
                                let q = choose|q: int| 0 <= q < fo.len() && fo[q] == t0;
                                assert(old_res[q].title@ == t0);
                            }
                        }
                        assert(titles_of(res@) =~= titles_of(old_res).push(t0));
                    }
                }
            } else {
                assert(day_titles(after) =~= day_titles(before));
            }
            j = j + 1;
        }
        proof {
            let next = days@.subrange(0, i + 1);
            assert(next.drop_last() =~= done);
            assert(next.last() == days@[i as int]);
            assert(entries@.subrange(0, entries@.len() as int) =~= entries@);
            assert(month_titles(next) == month_titles(done) + day_titles(entries@));
            assert forall|t: Seq<char>| month_credits(next, t) implies exists|k: int|
                0 <= k < res@.len() && (#[trigger] res@[k]).title@ == t by {
                assert(month_credits(done, t) || day_credits(entries@.subrange(0, j as int), t));
            }
        }
        i = i + 1;
    }
    assert(days@.subrange(0, days@.len() as int) =~= days@);
    res
}

} // verus!
