use vstd::prelude::*;
use crate::aggregate::{is_totals_of, totals, TitleTotal};
use crate::model::{DayEntry, MonthEntry, WorkEntry};
use crate::text::{clock_text, decimal, duration_text, format_clock, format_duration, push_decimal};

verus! {

/// One line of a day's log: `- HHhMM - title`.
pub open spec fn entry_line(e: WorkEntry) -> Seq<char> {
    seq!['-', ' '] + clock_text(e.hour as nat, e.minute as nat) + seq![' ', '-', ' '] + e.title@ + seq!['\n']
}

/// The lines of a day's entries, in order.
pub open spec fn entries_text(s: Seq<WorkEntry>) -> Seq<char>
    decreases s.len(),
{
    if s.len() == 0 {
        Seq::empty()
    } else {
        entries_text(s.drop_last()) + entry_line(s.last())
    }
}

/// A day's date line `year/month/day` followed by its entries.
pub open spec fn day_text(year: u32, month: u32, d: DayEntry) -> Seq<char> {
    decimal(year as nat) + seq!['/'] + decimal(month as nat) + seq!['/'] + decimal(d.day as nat) + seq!['\n']
        + entries_text(d.entries@)
}

/// The days of a month, in stored order.
pub open spec fn days_text(year: u32, month: u32, ds: Seq<DayEntry>) -> Seq<char>
    decreases ds.len(),
{
    if ds.len() == 0 {
        Seq::empty()
    } else {
        days_text(year, month, ds.drop_last()) + day_text(year, month, ds.last())
    }
}

/// The log of a month: its number, then each day, or `No days`.
pub open spec fn month_text(m: MonthEntry) -> Seq<char> {
    seq!['M', 'o', 'n', 't', 'h', ':', ' '] + decimal(m.month as nat) + seq!['\n'] + if m.days@.len() == 0 {
        seq!['N', 'o', ' ', 'd', 'a', 'y', 's', '\n']
    } else {
        days_text(m.year, m.month, m.days@)
    }
}

/// A title as Rust's `{:?}` writes a string: quoted, with quotes,
/// backslashes and unprintable characters escaped.
pub uninterp spec fn debug_text(s: Seq<char>) -> Seq<char>;

/// Printable ASCII with no double quote or backslash: `{:?}` only adds the
/// surrounding quotes to such a string.
pub open spec fn is_plain_text(s: Seq<char>) -> bool {
    forall|i: int| 0 <= i < s.len() ==> ' ' <= #[trigger] s[i] && s[i] <= '~' && s[i] != '"' && s[i] != '\\'
}

/// Relies on `format!("{:?}", s)`, the `Debug` impl of `str`: `s` between
/// double quotes, each character as `char::escape_debug` writes it, which
/// leaves printable ASCII other than `"` and `\` unchanged.
#[verifier::external_body]
fn debug_quote(s: &str) -> (r: String)
    ensures
        r@ == debug_text(s@),
        is_plain_text(s@) ==> r@ == seq!['"'] + s@ + seq!['"'],
{
    format!("{:?}", s)
}

/// For each title of plain text in `v`, `{:?}` writes it between double
/// quotes and nothing more.
pub open spec fn quotes_plain_titles(v: Seq<TitleTotal>) -> bool {
    forall|k: int| 0 <= k < v.len() && is_plain_text((#[trigger] v[k]).title@)
        ==> debug_text(v[k].title@) == seq!['"'] + v[k].title@ + seq!['"']
}

/// One line of the totals: the quoted title, `: `, and the time.
pub open spec fn total_line(quoted: Seq<char>, minutes: nat) -> Seq<char> {
    quoted + seq![':', ' '] + duration_text(minutes) + seq!['\n']
}

/// One line per title: `"title": <hours>h<minutes>`.
pub open spec fn totals_text(v: Seq<TitleTotal>) -> Seq<char>
    decreases v.len(),
{
    if v.len() == 0 {
        Seq::empty()
    } else {
        totals_text(v.drop_last()) + total_line(debug_text(v.last().title@), v.last().minutes as nat)
    }
}

/// The line of the totals for a title already written as `{:?}` writes it.
pub fn format_total_line(quoted: &str, minutes: u64) -> (r: String)
    ensures
        r@ == total_line(quoted@, minutes as nat),
{
    let mut out = String::from_str(quoted);
    out.append(": ");
    let d = format_duration(minutes);
    out.append(d.as_str());
    out.append("\n");
    proof {
        reveal_strlit(": ");
        reveal_strlit("\n");
    }
    assert(out@ =~= total_line(quoted@, minutes as nat));
    out
}

fn push_entries(out: &mut String, entries: &Vec<WorkEntry>)
    ensures
        final(out)@ == old(out)@ + entries_text(entries@),
{
    let mut j: usize = 0;
    while j < entries.len()
        invariant
            0 <= j <= entries@.len(),
            out@ == old(out)@ + entries_text(entries@.subrange(0, j as int)),
        decreases entries@.len() - j,
    {
        let e = &entries[j];
        out.append("- ");
        let clock = format_clock(e.hour, e.minute);
        out.append(clock.as_str());
        out.append(" - ");
        out.append(e.title.as_str());
        out.append("\n");
        proof {
            reveal_strlit("- ");
            reveal_strlit(" - ");
            reveal_strlit("\n");
            let next = entries@.subrange(0, j + 1);
            assert(next.drop_last() =~= entries@.subrange(0, j as int));
            assert(out@ =~= old(out)@ + entries_text(next));
        }
        j = j + 1;
    }
    assert(entries@.subrange(0, entries@.len() as int) =~= entries@);
}

/// The day-by-day log of a month, as printed by `show`.
pub fn show(month_entry: &MonthEntry) -> (r: String)
    ensures
        r@ == month_text(*month_entry),
{
    let mut out = String::new();
    out.append("Month: ");
    push_decimal(&mut out, month_entry.month as u64);
    out.append("\n");
    proof {
        reveal_strlit("Month: ");
        reveal_strlit("\n");
    }
    let ghost head = out@;
    if month_entry.days.len() == 0 {
        out.append("No days\n");
        proof { reveal_strlit("No days\n"); }
        assert(out@ =~= month_text(*month_entry));
        return out;
    }
    let days = &month_entry.days;
    let mut i: usize = 0;
    while i < days.len()
        invariant
            0 <= i <= days@.len(),
            out@ == head + days_text(month_entry.year, month_entry.month, days@.subrange(0, i as int)),
        decreases days@.len() - i,
    {
        let ghost start = out@;
        push_decimal(&mut out, month_entry.year as u64);
        out.append("/");
        push_decimal(&mut out, month_entry.month as u64);
        out.append("/");
        push_decimal(&mut out, days[i].day as u64);
        out.append("\n");
        push_entries(&mut out, &days[i].entries);
        proof {
            reveal_strlit("/");
            reveal_strlit("\n");
            let next = days@.subrange(0, i + 1);
            assert(next.drop_last() =~= days@.subrange(0, i as int));
            assert(next.last() == days@[i as int]);
            assert(out@ =~= start + day_text(month_entry.year, month_entry.month, days@[i as int]));
            assert(out@ =~= head + days_text(month_entry.year, month_entry.month, next));
        }
        i = i + 1;
    }
    assert(days@.subrange(0, days@.len() as int) =~= days@);
    assert(out@ =~= month_text(*month_entry));
    out
}

/// One line per title with its total time, in the order given; a title of
/// plain text is written between double quotes.
pub fn format_totals(v: &Vec<TitleTotal>) -> (r: String)
    ensures
        r@ == totals_text(v@),
        quotes_plain_titles(v@),
{
    let mut out = String::new();
    let mut k: usize = 0;
    while k < v.len()
        invariant
            0 <= k <= v@.len(),
            out@ == totals_text(v@.subrange(0, k as int)),
            quotes_plain_titles(v@.subrange(0, k as int)),
        decreases v@.len() - k,
    {
        let quoted = debug_quote(v[k].title.as_str());
        let line = format_total_line(quoted.as_str(), v[k].minutes);
        out.append(line.as_str());
        proof {
            let next = v@.subrange(0, k + 1);
            assert(next.drop_last() =~= v@.subrange(0, k as int));
            assert forall|q: int| 0 <= q < next.len() && is_plain_text((#[trigger] next[q]).title@)
                implies debug_text(next[q].title@) == seq!['"'] + next[q].title@ + seq!['"'] by {
                if q < k {
                    assert(next[q] == v@.subrange(0, k as int)[q]);
                }
            }
            assert(out@ =~= totals_text(next));
        }
        k = k + 1;
    }
    assert(v@.subrange(0, v@.len() as int) =~= v@);
    out
}

/// The time worked on each title over the month, as printed by `total`.
pub fn total(month_entry: &MonthEntry) -> (r: String)
    ensures
        exists|v: Seq<TitleTotal>| is_totals_of(month_entry.days@, v) && r@ == totals_text(v) && quotes_plain_titles(v),
{
    let v = totals(month_entry);
    format_totals(&v)
}

} // verus!
