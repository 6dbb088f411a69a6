use ledger::amount::parse_amount;
use ledger::codec::{DecodeError, Entry};
use ledger::config::{parse_settings, ConfigError};
use ledger::date::{date_of_parts, parse_date, today, Date, FIXED_WEST_OFFSET_SECS};
use ledger::filter::{days_back_start, to_timestamp, DateRange};
use ledger::report::{build_report, is_credit, parse_objectives, percentage, LedgerConfig, Objective};
use ledger::store::{entries_or_empty, load_entries, load_log, LoadError};

fn day(d: u32, m: u32, y: u32) -> Date {
    Date::new(d, m, y).expect("a real day")
}

fn entry(date: &str, cents: i64, desc: &str) -> Entry {
    Entry::new(parse_date(date).expect("a real day"), cents, desc).expect("a valid entry")
}

fn config(limit: Option<usize>, objectives: Option<Vec<Objective>>) -> LedgerConfig {
    LedgerConfig { objectives, display_limit: limit, separator_width: None }
}

#[test]
fn encode_writes_fields_and_newline() {
    assert_eq!(entry("01/01/2024", 10000, "salary").encode(), "01/01/2024:100:salary\n");
    assert_eq!(entry("02/01/2024", -4050, "food").encode(), "02/01/2024:-40.5:food\n");
    assert_eq!(entry("03/02/2024", 5, "tip").encode(), "03/02/2024:0.05:tip\n");
    assert_eq!(entry("03/02/2024", -1234, "").encode(), "03/02/2024:-12.34:\n");
}

#[test]
fn decode_of_encode_gives_the_entry_back() {
    for (date, cents, desc) in [
        ("01/01/2024", 10000, "salary"),
        ("29/02/2024", -4050, "food and drink"),
        ("31/12/9999", i64::MIN, "lowest"),
        ("01/01/0000", i64::MAX, "highest"),
        ("15/06/2023", 0, ""),
    ] {
        let e = entry(date, cents, desc);
        let back = Entry::decode(&e.encode()).expect("decodes");
        assert_eq!(back.date, e.date);
        assert_eq!(back.amount, cents);
        assert_eq!(back.description, desc);
        assert_eq!(back.encode(), e.encode());
    }
}

#[test]
fn decode_keeps_the_rest_of_the_line_as_description() {
    let e = Entry::decode("01/01/2024:1.5:rent: march").expect("decodes");
    assert_eq!(e.date, day(1, 1, 2024));
    assert_eq!(e.amount, 150);
    assert_eq!(e.description, "rent: march");
}

#[test]
fn decode_errors() {
    assert_eq!(Entry::decode("01/01/2024:100.0").err(), Some(DecodeError::Malformed));
    assert_eq!(Entry::decode("no separators").err(), Some(DecodeError::Malformed));
    assert_eq!(Entry::decode("01/01/2024:abc:x").err(), Some(DecodeError::InvalidAmount));
    assert_eq!(Entry::decode("01/01/2024:1.234:x").err(), Some(DecodeError::InvalidAmount));
    assert_eq!(Entry::decode("32/01/2024:1:x").err(), Some(DecodeError::InvalidDate));
    assert_eq!(Entry::decode("2024-01-01:1:x").err(), Some(DecodeError::InvalidDate));
    assert_eq!(Entry::decode("29/02/2023:1:x").err(), Some(DecodeError::InvalidDate));
}

#[test]
fn amounts_in_cents() {
    assert_eq!(parse_amount("100.0"), Some(10000));
    assert_eq!(parse_amount("-40"), Some(-4000));
    assert_eq!(parse_amount("+3.5"), Some(350));
    assert_eq!(parse_amount("0.05"), Some(5));
    assert_eq!(parse_amount("92233720368547758.07"), Some(i64::MAX));
    assert_eq!(parse_amount("-92233720368547758.08"), Some(i64::MIN));
    assert_eq!(parse_amount("92233720368547758.08"), None);
    assert_eq!(parse_amount("1.234"), None);
    assert_eq!(parse_amount(".5"), None);
    assert_eq!(parse_amount(""), None);
    assert_eq!(parse_amount("1e3"), None);
}

#[test]
fn new_entry_rejects_separator_and_newline() {
    let d = day(1, 1, 2024);
    assert!(Entry::new(d, 1, "a:b").is_none());
    assert!(Entry::new(d, 1, "a\nb").is_none());
    assert!(Entry::new(Date { day: 31, month: 4, year: 2024 }, 1, "x").is_none());
    assert!(Entry::new(d, 1, "ok").is_some());
}

#[test]
fn dates_and_timestamps() {
    assert_eq!(day(5, 3, 999).format(), "05/03/0999");
    assert_eq!(parse_date("29/02/2024"), Some(day(29, 2, 2024)));
    assert_eq!(parse_date("29/02/1900"), None);
    assert_eq!(parse_date("1/1/2024"), None);
    assert_eq!(to_timestamp("01/01/1970"), Some(0));
    assert_eq!(to_timestamp("02/01/1970"), Some(86400));
    assert_eq!(to_timestamp("01/01/2024"), Some(1704067200));
    assert_eq!(to_timestamp("31/12/1969"), Some(-86400));
    assert_eq!(to_timestamp("bad"), None);
    assert_eq!(days_back_start(day(2, 1, 1970), 1), Some(0));
    assert_eq!(days_back_start(day(1, 1, 1970), i64::MAX), None);
    assert!(today().is_some());
}

#[test]
fn load_reads_lines_in_order_and_skips_empty_ones() {
    let es = load_entries("01/01/2024:100:salary\n\n02/01/2024:-40:food\n").expect("loads");
    assert_eq!(es.len(), 2);
    assert_eq!(es[0].description, "salary");
    assert_eq!(es[1].amount, -4000);
}

#[test]
fn load_fails_on_one_separator_line() {
    let r = load_entries("01/01/2024:100.0");
    assert_eq!(r.err(), Some(LoadError::CorruptLine { line_number: 1, cause: DecodeError::Malformed }));
    let r = load_entries("01/01/2024:100:ok\n01/13/2024:1:bad\n");
    assert_eq!(r.err(), Some(LoadError::CorruptLine { line_number: 2, cause: DecodeError::InvalidDate }));
}

#[test]
fn missing_log_is_an_empty_ledger() {
    let loaded = load_log(None);
    assert_eq!(loaded.as_ref().err(), Some(&LoadError::NoHistory));
    let es = entries_or_empty(loaded).expect("empty ledger");
    assert!(es.is_empty());
    let r = build_report(&es, DateRange::unbounded(), &config(None, None));
    assert_eq!(r.sum, 0);
    assert_eq!(r.hidden_count, 0);
    assert!(r.visible.is_empty());
    assert!(entries_or_empty(load_log(Some("x"))).is_err());
}

#[test]
fn report_sums_salary_and_food() {
    let es = vec![entry("01/01/2024", 10000, "salary"), entry("02/01/2024", -4000, "food")];
    let r = build_report(&es, DateRange::unbounded(), &config(None, None));
    assert_eq!(r.sum, 6000);
    assert_eq!(r.hidden_count, 0);
    assert_eq!(r.visible.len(), 2);
    assert!(r.objectives.is_none());
}

#[test]
fn report_hides_the_oldest_beyond_the_limit() {
    let es: Vec<Entry> = (0..60).map(|i| entry("01/01/2024", i, &format!("e{}", i))).collect();
    let r = build_report(&es, DateRange::unbounded(), &config(None, None));
    assert_eq!(r.hidden_count, 10);
    assert_eq!(r.visible.len(), 50);
    assert_eq!(r.visible[0].description, "e10");
    assert_eq!(r.sum, (0..60).sum::<i128>());
    let r = build_report(&es, DateRange::unbounded(), &config(Some(70), None));
    assert_eq!(r.hidden_count, 0);
    let r = build_report(&es, DateRange::unbounded(), &config(Some(0), None));
    assert_eq!(r.hidden_count, 60);
    assert_eq!(r.sum, (0..60).sum::<i128>());
}

#[test]
fn unbounded_range_keeps_far_dates() {
    let es = vec![entry("01/01/0000", 1, "old"), entry("31/12/9999", 2, "future")];
    let r = build_report(&es, DateRange::unbounded(), &config(None, None));
    assert_eq!(r.visible.len(), 2);
    assert_eq!(r.sum, 3);
    assert!(DateRange::unbounded().contains(i64::MIN));
    assert!(DateRange::unbounded().contains(i64::MAX));
}

#[test]
fn bounded_range_is_exclusive_on_both_ends() {
    let es = vec![
        entry("01/01/2024", 1, "a"),
        entry("02/01/2024", 10, "b"),
        entry("03/01/2024", 100, "c"),
    ];
    let range = DateRange { start: to_timestamp("01/01/2024"), end: to_timestamp("03/01/2024") };
    let r = build_report(&es, range, &config(None, None));
    assert_eq!(r.sum, 10);
    assert_eq!(r.visible.len(), 1);
    assert_eq!(r.visible[0].description, "b");
    let range = DateRange { start: None, end: to_timestamp("03/01/2024") };
    assert_eq!(build_report(&es, range, &config(None, None)).sum, 11);
}

#[test]
fn objective_percentages() {
    assert_eq!(percentage(6000, 6000), Some(10000));
    assert_eq!(percentage(3000, 6000), Some(5000));
    assert_eq!(percentage(1, 3), Some(3333));
    assert_eq!(percentage(-1, 3), Some(-3333));
    assert_eq!(percentage(1, -3), Some(-3333));
    assert_eq!(percentage(100, 0), None);
    assert_eq!(percentage(i128::MAX, 1), None);
    let es = vec![entry("01/01/2024", 10000, "salary"), entry("02/01/2024", -4000, "food")];
    let objectives = vec![
        Objective { label: "rent".to_string(), target: 6000 },
        Objective { label: "car".to_string(), target: 0 },
    ];
    let r = build_report(&es, DateRange::unbounded(), &config(None, Some(objectives)));
    let ps = r.objectives.expect("objectives configured");
    assert_eq!(ps.len(), 2);
    assert_eq!(ps[0].label, "rent");
    assert_eq!(ps[0].percent, Some(10000));
    assert_eq!(ps[1].percent, None);
}

#[test]
fn credit_and_debit() {
    assert!(is_credit(1));
    assert!(!is_credit(0));
    assert!(!is_credit(-1));
}

#[test]
fn config_defaults() {
    let c = config(None, None);
    assert_eq!(c.display_limit(), 50);
    assert_eq!(c.separator_width(), 50);
    let c = LedgerConfig { objectives: None, display_limit: Some(3), separator_width: Some(7) };
    assert_eq!(c.display_limit(), 3);
    assert_eq!(c.separator_width(), 7);
}

#[test]
fn objectives_list() {
    let os = parse_objectives("rent:60.0,car:-1500,nothing here").expect("parses");
    assert_eq!(os.len(), 2);
    assert_eq!(os[0].label, "rent");
    assert_eq!(os[0].target, 6000);
    assert_eq!(os[1].label, "car");
    assert_eq!(os[1].target, -150000);
    assert!(parse_objectives("rent:lots").is_none());
    assert_eq!(parse_objectives("").map(|v| v.len()), Some(0));
}

#[test]
fn settings_file() {
    let s = parse_settings("HISTORY_FILE=log.txt\nOBJECTIVES=rent:60\nTRIM=20\nSEP_SIZE=30\nOTHER=x\n\nTRIM=25\n")
        .ok()
        .expect("parses");
    assert_eq!(s.history_file.as_deref(), Some("log.txt"));
    assert_eq!(s.ledger.display_limit, Some(25));
    assert_eq!(s.ledger.separator_width, Some(30));
    let os = s.ledger.objectives.expect("objectives");
    assert_eq!(os[0].target, 6000);
    let s = parse_settings("").ok().expect("parses");
    assert!(s.history_file.is_none() && s.ledger.objectives.is_none());
    assert_eq!(s.ledger.display_limit(), 50);
    assert_eq!(parse_settings("TRIM=20\nno equals sign").err(), Some(ConfigError { line_number: 2 }));
    assert_eq!(parse_settings("TRIM=-1").err(), Some(ConfigError { line_number: 1 }));
    assert_eq!(parse_settings("SEP_SIZE=99999999999999999999").err(), Some(ConfigError { line_number: 1 }));
    assert_eq!(parse_settings("OBJECTIVES=a:b").err(), Some(ConfigError { line_number: 1 }));
}

#[test]
fn timestamps_across_the_calendar() {
    assert_eq!(to_timestamp("29/02/2024"), Some(1709164800));
    assert_eq!(to_timestamp("01/03/2000"), Some(951868800));
    assert_eq!(to_timestamp("01/01/0000"), Some(-62167219200));
    assert_eq!(to_timestamp("31/12/9999"), Some(253402214400));
}

#[test]
fn date_from_clock_parts() {
    assert_eq!(date_of_parts(2024, 2, 29), Some(day(29, 2, 2024)));
    assert_eq!(date_of_parts(2023, 2, 29), None);
    assert_eq!(date_of_parts(-1, 1, 1), None);
    assert_eq!(date_of_parts(10000, 1, 1), None);
    assert_eq!(date_of_parts(2024, 13, 1), None);
    assert_eq!(FIXED_WEST_OFFSET_SECS, 10800);
}
