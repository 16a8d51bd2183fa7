use mesa::{Config, Database, DbError, Entry, EntryError, FilterMode, DB_HEADER};

fn config(exe: &str, args: &[&str], filter: FilterMode, show: usize) -> Config {
    let mut v: Vec<String> = vec![
        format!("--show={}", show),
        match filter {
            FilterMode::All => "--filter=all".to_string(),
            FilterMode::Exe => "--filter=exe".to_string(),
            FilterMode::Exact => "--filter=exact".to_string(),
        },
        "--".to_string(),
        exe.to_string(),
    ];
    v.extend(args.iter().map(|a| a.to_string()));
    Config::new(v).unwrap()
}

fn entry(ts: u64, exe: &str, args: &str, mean: u64) -> Entry {
    Entry {
        timestamp: ts,
        executable: exe.to_string(),
        arguments: args.to_string(),
        note: String::new(),
        runs: 1,
        time_mean: mean,
        time_stddev: 0,
    }
}

#[test]
fn entry_round_trip() {
    let e = Entry {
        timestamp: 1700000000,
        executable: "/usr/bin/make".to_string(),
        arguments: "-j 8 all".to_string(),
        note: "a note, with \"quotes\"".to_string(),
        runs: 12,
        time_mean: 1_234_567_891,
        time_stddev: 5_000,
    };
    let line = e.to_string();
    assert_eq!(line, "1700000000|/usr/bin/make|-j 8 all|12|1.234567891|0.000005|a note, with \"quotes\"");
    let back = Entry::from_str(&line).unwrap();
    assert_eq!(back.timestamp, e.timestamp);
    assert_eq!(back.executable, e.executable);
    assert_eq!(back.arguments, e.arguments);
    assert_eq!(back.note, e.note);
    assert_eq!(back.runs, e.runs);
    assert_eq!(back.time_mean, e.time_mean);
    assert_eq!(back.time_stddev, e.time_stddev);
}

#[test]
fn entry_parse_seconds_forms() {
    let e = Entry::from_str("5|a|b|2|0.30000000000000004|2|n").unwrap();
    assert_eq!(e.time_mean, 300_000_000);
    assert_eq!(e.time_stddev, 2_000_000_000);
    let e = Entry::from_str("5|a||2|+1.5|0.0|").unwrap();
    assert_eq!(e.time_mean, 1_500_000_000);
    assert_eq!(e.arguments, "");
    assert_eq!(e.note, "");
}

#[test]
fn entry_parse_errors() {
    assert_eq!(Entry::from_str("1|a|b|2|0.1|0.1").unwrap_err(), EntryError::FieldCount);
    assert_eq!(Entry::from_str("1|a|b|2|0.1|0.1|n|x").unwrap_err(), EntryError::FieldCount);
    assert_eq!(Entry::from_str("x|a|b|2|0.1|0.1|n").unwrap_err(), EntryError::Timestamp);
    assert_eq!(Entry::from_str("1|a|b|-2|0.1|0.1|n").unwrap_err(), EntryError::Runs);
    assert_eq!(Entry::from_str("1|a|b|2|1.|0.1|n").unwrap_err(), EntryError::Mean);
    assert_eq!(Entry::from_str("1|a|b|2|0.1|1.2.3|n").unwrap_err(), EntryError::StdDev);
    assert_eq!(Entry::from_str("18446744073709551616|a|b|2|0.1|0.1|n").unwrap_err(), EntryError::Timestamp);
    assert_eq!(Entry::from_str("1|a|b|2|18446744074|0.1|n").unwrap_err(), EntryError::Mean);
}

#[test]
fn entry_age() {
    let e = entry(1000, "a", "", 1);
    assert_eq!(e.age(1000), "just now");
    assert_eq!(e.age(10), "just now");
    assert_eq!(e.age(1000 + 3600 * 5 + 60 * 7 + 9), "   5:07:09 ago");
    assert_eq!(e.age(1000 + 3600 * 12345 + 59), "12345:00:59 ago");
}

#[test]
fn load_missing_file_is_empty() {
    let mut db = Database::new("/no/such/file");
    assert!(db.load(None).is_ok());
    assert!(db.entries.is_empty());
    assert_eq!(db.filename(), "/no/such/file");
}

#[test]
fn load_rejects_other_header() {
    let mut db = Database::new("f");
    match db.load(Some("# mesa database|github.com/avahidi/mesa|version=1.1\n")) {
        Err(DbError::UnsupportedVersion(h)) => {
            assert_eq!(h, "# mesa database|github.com/avahidi/mesa|version=1.1")
        }
        other => panic!("unexpected {:?}", other),
    }
    assert!(matches!(db.load(Some("")), Err(DbError::MissingHeader)));
    assert!(db.entries.is_empty());
}

#[test]
fn load_malformed_row_loads_nothing() {
    let mut db = Database::new("f");
    let good = format!("{}\n1|a|b|1|0.5|0|n\n", DB_HEADER);
    db.load(Some(&good)).unwrap();
    assert_eq!(db.entries.len(), 1);
    let bad = format!("{}\r\n2|a|b|1|0.5|0|n\r\n3|a|b|1|0.5|0\r\n4|a|b|1|0.5|0|n\r\n", DB_HEADER);
    match db.load(Some(&bad)) {
        Err(DbError::BadEntry(line, k)) => {
            assert_eq!(line, 3);
            assert_eq!(k, EntryError::FieldCount);
        }
        other => panic!("unexpected {:?}", other),
    }
    assert_eq!(db.entries.len(), 1);
    assert_eq!(db.entries[0].timestamp, 1);
}

#[test]
fn load_crlf_and_no_final_newline() {
    let mut db = Database::new("f");
    let text = format!("{}\r\n2|a|b|1|0.5|0|n\r\n3|c|d|4|1|0.25|", DB_HEADER);
    db.load(Some(&text)).unwrap();
    assert_eq!(db.entries.len(), 2);
    assert_eq!(db.entries[0].note, "n");
    assert_eq!(db.entries[1].executable, "c");
    assert_eq!(db.entries[1].time_stddev, 250_000_000);
}

#[test]
fn insert_then_save_writes_header_and_row() {
    let mut db = Database::new("f");
    let cfg = Config::new(vec!["--runs=3".to_string(), "--".to_string(), "ls".to_string(), "-l".to_string()]).unwrap();
    db.insert(&cfg, 1_700_000_000, 12_300_000, 0);
    let text = db.save();
    assert_eq!(text, format!("{}\n1700000000|ls|-l|3|0.0123|0|\n", DB_HEADER));
    let mut again = Database::new("f");
    again.load(Some(&text)).unwrap();
    assert_eq!(again.entries.len(), 1);
    assert_eq!(again.entries[0].time_mean, 12_300_000);
    assert_eq!(again.entries[0].runs, 3);
}

#[test]
fn insert_joins_arguments_with_spaces() {
    let mut db = Database::new("f");
    let cfg = config("cp", &["a b", "c"], FilterMode::Exact, 5);
    db.insert(&cfg, 1, 2, 3);
    assert_eq!(db.entries[0].arguments, "a b c");
    assert_eq!(db.entries[0].executable, "cp");
}

#[test]
fn search_by_executable_newest_first() {
    let mut db = Database::new("f");
    db.entries.push(entry(1, "build", "x", 10));
    db.entries.push(entry(2, "test", "", 20));
    db.entries.push(entry(3, "build", "x", 30));
    let cfg = config("build", &["x"], FilterMode::Exe, 10);
    let found = db.search(&cfg);
    assert_eq!(found.len(), 2);
    assert_eq!(found[0].timestamp, 3);
    assert_eq!(found[1].timestamp, 1);
}

#[test]
fn search_filters_narrow_and_cap() {
    let mut db = Database::new("f");
    db.entries.push(entry(1, "build", "x", 10));
    db.entries.push(entry(2, "build", "y", 10));
    db.entries.push(entry(3, "test", "x", 10));
    db.entries.push(entry(4, "build", "x", 10));
    let exact = db.search(&config("build", &["x"], FilterMode::Exact, 10)).len();
    let exe = db.search(&config("build", &["x"], FilterMode::Exe, 10)).len();
    let all = db.search(&config("build", &["x"], FilterMode::All, 10)).len();
    assert_eq!((exact, exe, all), (2, 3, 4));
    let capped = db.search(&config("build", &["x"], FilterMode::All, 2));
    assert_eq!(capped.len(), 2);
    assert_eq!(capped[0].timestamp, 4);
    assert_eq!(capped[1].timestamp, 3);
    assert!(db.search(&config("build", &["x"], FilterMode::All, 0)).is_empty());
}

#[test]
fn db_error_messages() {
    let mut db = Database::new("f");
    let e = db.load(Some(&format!("{}\nx|a|b|1|1|1|n\n", DB_HEADER))).unwrap_err();
    assert_eq!(e.message(), "Failed to parse entry on line 2: Invalid timestamp");
}
