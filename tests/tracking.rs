use tt::aggregate::{totals, TitleTotal};
use tt::commands::{log, note_to_edit};
use tt::error::TrackError;
use tt::model::{DayEntry, MonthEntry, Note, WorkEntry};
use tt::report::{format_total_line, format_totals, show, total};
use tt::store::{get_current_datafile, get_work_dir, load};
use tt::text::{format_clock, format_duration, parse_number, parse_time};

fn entry(hour: u32, minute: u32, title: &str) -> WorkEntry {
    WorkEntry { hour, minute, title: title.to_string() }
}

fn times(m: &MonthEntry, day: u32) -> Vec<(u32, u32, String)> {
    let d = m.days.iter().find(|d| d.day == day).expect("day present");
    d.entries.iter().map(|e| (e.hour, e.minute, e.title.clone())).collect()
}

fn minutes_of(v: &[TitleTotal], title: &str) -> Option<u64> {
    v.iter().find(|t| t.title == title).map(|t| t.minutes)
}

#[test]
fn parse_time_padded() {
    assert_eq!(parse_time("07h05"), Ok((7, 5)));
}

#[test]
fn parse_time_unpadded_matches_padded() {
    assert_eq!(parse_time("7h5"), Ok((7, 5)));
    assert_eq!(parse_time("7h5"), parse_time("07h05"));
    assert_eq!(parse_time("007h0005"), Ok((7, 5)));
}

#[test]
fn parse_time_rejects_malformed() {
    for bad in ["", "h", "0705", "07:05", "07h", "h05", "07h05h", "ahb", "-1h05", "7h 5", "99999999999h00"] {
        assert_eq!(parse_time(bad), Err(TrackError::InvalidTimeFormat), "{}", bad);
    }
}

#[test]
fn parse_time_keeps_out_of_range_values() {
    assert_eq!(parse_time("25h75"), Ok((25, 75)));
}

#[test]
fn parse_number_cases() {
    assert_eq!(parse_number("0"), Some(0));
    assert_eq!(parse_number("2024"), Some(2024));
    assert_eq!(parse_number("4294967295"), Some(u32::MAX));
    assert_eq!(parse_number("4294967296"), None);
    assert_eq!(parse_number(""), None);
    assert_eq!(parse_number("12a"), None);
}

#[test]
fn duration_formatting() {
    assert_eq!(format_duration(125), "2h05");
    assert_eq!(format_duration(0), "0h00");
    assert_eq!(format_duration(59), "0h59");
    assert_eq!(format_duration(60), "1h00");
    assert_eq!(format_duration(6000), "100h00");
}

#[test]
fn clock_formatting() {
    assert_eq!(format_clock(7, 5), "07h05");
    assert_eq!(format_clock(13, 45), "13h45");
}

#[test]
fn record_entry_sorts_entries() {
    let mut m = MonthEntry::new(2024, 3);
    m.record_entry(5, 10, 0, "late".to_string());
    m.record_entry(5, 8, 0, "early".to_string());
    m.record_entry(5, 9, 30, "middle".to_string());
    m.record_entry(5, 9, 5, "before middle".to_string());
    assert_eq!(
        times(&m, 5),
        vec![
            (8, 0, "early".to_string()),
            (9, 5, "before middle".to_string()),
            (9, 30, "middle".to_string()),
            (10, 0, "late".to_string()),
        ]
    );
    assert!(m.is_well_formed());
}

#[test]
fn record_entry_keeps_ties_in_recording_order() {
    let mut m = MonthEntry::new(2024, 3);
    m.record_entry(1, 9, 0, "first".to_string());
    m.record_entry(1, 9, 0, "second".to_string());
    m.record_entry(1, 8, 0, "early".to_string());
    assert_eq!(
        times(&m, 1),
        vec![(8, 0, "early".to_string()), (9, 0, "first".to_string()), (9, 0, "second".to_string())]
    );
}

#[test]
fn record_entry_keeps_days_unique() {
    let mut m = MonthEntry::new(2024, 3);
    m.record_entry(2, 9, 0, "a".to_string());
    m.record_entry(3, 9, 0, "b".to_string());
    m.record_entry(2, 10, 0, "c".to_string());
    m.record_entry(3, 8, 0, "d".to_string());
    let days: Vec<u32> = m.days.iter().map(|d| d.day).collect();
    assert_eq!(days, vec![2, 3]);
    assert_eq!(m.days[0].entries.len(), 2);
    assert_eq!(m.days[1].entries.len(), 2);
    assert_eq!((m.year, m.month), (2024, 3));
}

#[test]
fn aggregation_of_one_day() {
    let mut m = MonthEntry::new(2024, 3);
    m.record_entry(1, 8, 0, "A".to_string());
    m.record_entry(1, 9, 30, "B".to_string());
    m.record_entry(1, 10, 0, "A".to_string());
    let v = totals(&m);
    assert_eq!(v.len(), 2);
    assert_eq!(minutes_of(&v, "A"), Some(90));
    assert_eq!(minutes_of(&v, "B"), Some(30));
    assert_eq!(total(&m), "\"A\": 1h30\n\"B\": 0h30\n");
}

#[test]
fn single_entry_day_gives_no_minutes() {
    let mut m = MonthEntry::new(2024, 3);
    m.record_entry(1, 8, 0, "A".to_string());
    assert!(totals(&m).is_empty());
    assert_eq!(total(&m), "");
}

#[test]
fn aggregation_sums_over_days() {
    let mut m = MonthEntry::new(2024, 3);
    m.record_entry(1, 8, 0, "A".to_string());
    m.record_entry(1, 9, 0, "stop".to_string());
    m.record_entry(2, 13, 15, "A".to_string());
    m.record_entry(2, 14, 0, "B".to_string());
    m.record_entry(2, 14, 20, "stop".to_string());
    let v = totals(&m);
    assert_eq!(minutes_of(&v, "A"), Some(105));
    assert_eq!(minutes_of(&v, "B"), Some(20));
    assert_eq!(minutes_of(&v, "stop"), None);
    assert_eq!(total(&m), "\"A\": 1h45\n\"B\": 0h20\n");
}

#[test]
fn aggregation_clamps_backward_gaps() {
    let m = MonthEntry {
        year: 2024,
        month: 3,
        days: vec![DayEntry { day: 1, entries: vec![entry(10, 0, "A"), entry(9, 0, "B")], notes: vec![] }],
    };
    assert_eq!(minutes_of(&totals(&m), "A"), Some(0));
}

#[test]
fn totals_text_format() {
    let v = vec![TitleTotal { title: "A".to_string(), minutes: 125 }];
    assert_eq!(format_totals(&v), "\"A\": 2h05\n");
}

#[test]
fn show_empty_month() {
    assert_eq!(show(&MonthEntry::new(2024, 3)), "Month: 3\nNo days\n");
}

#[test]
fn show_month_log() {
    let mut m = MonthEntry::new(2024, 3);
    m.record_entry(7, 9, 30, "B".to_string());
    m.record_entry(7, 8, 5, "A".to_string());
    assert_eq!(show(&m), "Month: 3\n2024/3/7\n- 08h05 - A\n- 09h30 - B\n");
}

#[test]
fn load_missing_gives_empty_month() {
    let m = load(2024, 3, None).expect("empty month");
    assert_eq!((m.year, m.month, m.days.len()), (2024, 3, 0));
}

#[test]
fn load_malformed_is_parse_error() {
    assert!(matches!(load(2024, 3, Some(Err(TrackError::ParseError))), Err(TrackError::ParseError)));
}

#[test]
fn load_keeps_duplicate_days_as_decoded() {
    let m = MonthEntry {
        year: 2024,
        month: 3,
        days: vec![
            DayEntry { day: 1, entries: vec![entry(9, 0, "A")], notes: vec![] },
            DayEntry { day: 1, entries: vec![], notes: vec![] },
        ],
    };
    let r = load(2024, 3, Some(Ok(m))).expect("decoded record");
    assert_eq!(r.days.len(), 2);
    assert!(!r.is_well_formed());
}

#[test]
fn load_keeps_unsorted_day_as_decoded() {
    let m = MonthEntry {
        year: 2024,
        month: 3,
        days: vec![DayEntry { day: 1, entries: vec![entry(10, 0, "A"), entry(9, 0, "B")], notes: vec![] }],
    };
    let r = load(2024, 3, Some(Ok(m))).expect("decoded record");
    assert_eq!(times(&r, 1), vec![(10, 0, "A".to_string()), (9, 0, "B".to_string())]);
    assert_eq!(show(&r), "Month: 3\n2024/3/1\n- 10h00 - A\n- 09h00 - B\n");
}

#[test]
fn record_entry_resorts_an_unsorted_day() {
    let mut m = MonthEntry {
        year: 2024,
        month: 3,
        days: vec![DayEntry {
            day: 1,
            entries: vec![entry(10, 0, "A"), entry(9, 0, "B"), entry(10, 0, "C")],
            notes: vec![],
        }],
    };
    m.record_entry(1, 9, 30, "D".to_string());
    assert_eq!(
        times(&m, 1),
        vec![
            (9, 0, "B".to_string()),
            (9, 30, "D".to_string()),
            (10, 0, "A".to_string()),
            (10, 0, "C".to_string()),
        ]
    );
    assert!(m.is_well_formed());
}

#[test]
fn record_entry_uses_first_day_with_the_number() {
    let mut m = MonthEntry {
        year: 2024,
        month: 3,
        days: vec![
            DayEntry { day: 1, entries: vec![entry(8, 0, "A")], notes: vec![] },
            DayEntry { day: 1, entries: vec![], notes: vec![] },
        ],
    };
    m.record_entry(1, 9, 0, "B".to_string());
    assert_eq!(m.days.len(), 2);
    assert_eq!(m.days[0].entries.len(), 2);
    assert_eq!(m.days[1].entries.len(), 0);
}

#[test]
fn load_keeps_valid_record() {
    let m = MonthEntry {
        year: 2023,
        month: 12,
        days: vec![DayEntry { day: 4, entries: vec![entry(9, 0, "A")], notes: vec![] }],
    };
    let r = load(2023, 12, Some(Ok(m))).expect("valid record");
    assert_eq!(times(&r, 4), vec![(9, 0, "A".to_string())]);
}

#[test]
fn datafile_path() {
    assert_eq!(get_work_dir("/home/me"), "/home/me/.tt/");
    assert_eq!(get_current_datafile("/home/me/.tt/", 2024, 3), "/home/me/.tt/tt_2024_3.json");
}

#[test]
fn log_with_explicit_and_current_time() {
    let mut m = MonthEntry::new(2024, 3);
    assert_eq!(log(&mut m, "A".to_string(), Some("07h05"), 9, 12, 0), Ok(()));
    assert_eq!(log(&mut m, "B".to_string(), None, 9, 6, 30), Ok(()));
    assert_eq!(times(&m, 9), vec![(6, 30, "B".to_string()), (7, 5, "A".to_string())]);
}

#[test]
fn log_with_bad_time_changes_nothing() {
    let mut m = MonthEntry::new(2024, 3);
    assert_eq!(log(&mut m, "A".to_string(), Some("7:05"), 9, 12, 0), Err(TrackError::InvalidTimeFormat));
    assert!(m.days.is_empty());
}

#[test]
fn notes_on_latest_entry() {
    let mut m = MonthEntry::new(2024, 3);
    assert_eq!(note_to_edit(&m, 2), None);
    assert!(!tt::commands::write(&mut m, 2, "x".to_string()));
    m.record_entry(2, 9, 0, "A".to_string());
    m.record_entry(2, 10, 0, "B".to_string());
    assert_eq!(note_to_edit(&m, 2), Some(String::new()));
    assert!(tt::commands::write(&mut m, 2, "first".to_string()));
    assert_eq!(note_to_edit(&m, 2), Some("first".to_string()));
    assert!(tt::commands::write(&mut m, 2, "second".to_string()));
    assert_eq!(m.days[0].notes.len(), 1);
    assert_eq!(m.days[0].notes[0].title, "B");
    assert_eq!(m.days[0].notes[0].body, "second");
    assert_eq!(m.latest_title(2), Some("B".to_string()));
}

#[test]
fn day_notes_lookup() {
    let mut d = DayEntry::new(1);
    d.set_note("A".to_string(), "one".to_string());
    d.set_note("B".to_string(), "two".to_string());
    assert_eq!(d.note(&"A".to_string()), Some("one".to_string()));
    assert_eq!(d.note(&"C".to_string()), None);
    let _ = Note { title: String::new(), body: String::new() };
}

#[test]
fn totals_lines_quote_titles_as_debug() {
    let v = vec![
        TitleTotal { title: "say \"hi\"".to_string(), minutes: 1 },
        TitleTotal { title: "a\\b".to_string(), minutes: 61 },
    ];
    assert_eq!(format_totals(&v), "\"say \\\"hi\\\"\": 0h01\n\"a\\\\b\": 1h01\n");
    for t in &v {
        assert!(format_totals(&vec![TitleTotal { title: t.title.clone(), minutes: t.minutes }])
            .starts_with(&format!("{:?}: ", t.title)));
    }
}

#[test]
fn total_line_from_quoted_title() {
    assert_eq!(format_total_line("\"A\"", 125), "\"A\": 2h05\n");
}

#[test]
fn total_for_two_titles() {
    let mut m = MonthEntry::new(2024, 3);
    m.record_entry(1, 8, 0, "A".to_string());
    m.record_entry(1, 10, 5, "B".to_string());
    assert_eq!(total(&m), "\"A\": 2h05\n");
    m.record_entry(1, 9, 30, "B".to_string());
    assert_eq!(total(&m), "\"A\": 1h30\n\"B\": 0h35\n");
}

#[test]
fn totals_in_order_of_first_credit() {
    let mut m = MonthEntry::new(2024, 3);
    m.record_entry(1, 8, 0, "Z".to_string());
    m.record_entry(1, 9, 0, "M".to_string());
    m.record_entry(1, 10, 0, "end".to_string());
    m.record_entry(2, 8, 0, "A".to_string());
    m.record_entry(2, 9, 0, "Z".to_string());
    m.record_entry(2, 9, 30, "end".to_string());
    let titles: Vec<String> = totals(&m).into_iter().map(|t| t.title).collect();
    assert_eq!(titles, vec!["Z".to_string(), "M".to_string(), "A".to_string()]);
}

#[test]
fn parse_number_accepts_one_plus_sign() {
    assert_eq!(parse_number("+7"), Some(7));
    assert_eq!(parse_time("+7h05"), Ok((7, 5)));
    assert_eq!(parse_time("7h+05"), Ok((7, 5)));
    assert_eq!(parse_number("+"), None);
    assert_eq!(parse_number("++7"), None);
    assert_eq!(parse_number("-7"), None);
    assert_eq!(parse_time("-7h05"), Err(TrackError::InvalidTimeFormat));
}

#[test]
fn log_padded_and_unpadded_times_alike() {
    let mut a = MonthEntry::new(2024, 3);
    let mut b = MonthEntry::new(2024, 3);
    assert_eq!(log(&mut a, "P".to_string(), Some("07h05"), 4, 12, 0), Ok(()));
    assert_eq!(log(&mut b, "P".to_string(), Some("7h5"), 4, 12, 0), Ok(()));
    assert_eq!(times(&a, 4), vec![(7, 5, "P".to_string())]);
    assert_eq!(times(&a, 4), times(&b, 4));
    assert_eq!(show(&a), show(&b));
}
