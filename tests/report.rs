use mesa::{escape_csv, escape_json, escape_xml, statistics, write_output, Batch, Entry, ExecError, Report, RunOutcome};
use mesa::output::{output_csv, output_json, output_table, output_xml, split_path, OutputError};

fn entry(ts: u64, exe: &str, args: &str, note: &str, mean: u64, stddev: u64) -> Entry {
    Entry {
        timestamp: ts,
        executable: exe.to_string(),
        arguments: args.to_string(),
        note: note.to_string(),
        runs: 3,
        time_mean: mean,
        time_stddev: stddev,
    }
}

#[test]
fn statistics_of_equal_and_empty() {
    assert_eq!(statistics(&vec![]), (0, 0));
    assert_eq!(statistics(&vec![7_000, 7_000, 7_000, 7_000]), (7_000, 0));
    assert_eq!(statistics(&vec![u64::MAX, u64::MAX]), (u64::MAX, 0));
}

#[test]
fn statistics_of_three() {
    let (mean, stddev) = statistics(&vec![1_000_000_000, 2_000_000_000, 3_000_000_000]);
    assert_eq!(mean, 2_000_000_000);
    assert_eq!(stddev, 816_496_580);
}

#[test]
fn statistics_of_extremes() {
    let (mean, stddev) = statistics(&vec![0, u64::MAX]);
    assert_eq!(mean, u64::MAX / 2);
    assert_eq!(stddev, u64::MAX / 2);
}

#[test]
fn escapes() {
    assert_eq!(escape_csv(&"a\"b\"".to_string()), "a\"\"b\"\"");
    assert_eq!(escape_json(&"say \"hi\"\n".to_string()), "say \\\"hi\\\"\n");
    assert_eq!(escape_xml(&"<a & b>".to_string()), "&lt;a &amp; b&gt;");
    assert_eq!(escape_xml(&"&amp;".to_string()), "&amp;amp;");
}

#[test]
fn csv_json_xml() {
    let e = entry(17, "pro\"g", "a<b", "n&", 12_345_678, 500_000);
    let v = vec![&e];
    assert_eq!(
        output_csv(&v),
        "Timestamp,Executable,Arguments,Runs,Mean,StdDev,Note\n17,\"pro\"\"g\",\"a<b\",3,0.012345678,0.0005,\"n&\"\n"
    );
    assert_eq!(
        output_json(&v),
        "[\n {\"timestamp\": 17, \"executable\": \"pro\\\"g\", \"arguments\": \"a<b\", \"runs\": 3, \"mean\": 0.012, \"stddev\": 0.001, \"note\": \"n&\"}\n]\n"
    );
    assert_eq!(
        output_xml(&v),
        "<Measurements>\n  <Measurement>\n    <Timestamp>17</Timestamp>\n    <Executable>pro\"g</Executable>\n    <Arguments>a&lt;b</Arguments>\n    <Note>n&amp;</Note>\n    <Runs>3</Runs>\n    <Mean>0.012</Mean>\n    <StdDev>0.001</StdDev>\n  </Measurement>\n</Measurements>\n"
    );
    let e2 = entry(18, "x", "", "", 2_000_000_000, 0);
    let json = output_json(&vec![&e, &e2]);
    assert!(json.contains("},\n {\"timestamp\": 18"));
}

#[test]
fn table_plain() {
    let a = entry(100, "p", "x", "", 1_000_000_000, 0);
    let b = entry(40, "p", "x", "old", 1_500_000_000, 50_000);
    let text = output_table(&vec![&a, &b], false, 100);
    let lines: Vec<&str> = text.lines().collect();
    assert_eq!(lines.len(), 4);
    assert_eq!(
        lines[0],
        "      Age       | Executable | Arguments | Runs | Mean (s) | StdDev (s) | Change (%) | Note "
    );
    assert_eq!(lines[1], "----------------+------------+-----------+------+----------+------------+------------+------");
    assert_eq!(
        lines[2],
        "    just now    |     p      |     x     |  3   |  1.0000  |   0.0000   |            |      "
    );
    assert_eq!(
        lines[3],
        "    0:01:00 ago |     p      |     x     |  3   |  1.5000  |   0.0001   |   50.00    | old  "
    );
}

#[test]
fn table_colors_and_zero_anchor() {
    let a = entry(1, "p", "", "", 1_000, 0);
    let faster = entry(1, "p", "", "", 500, 0);
    let same = entry(1, "p", "", "", 1_005, 0);
    let text = output_table(&vec![&a, &faster, &same], true, 1);
    let lines: Vec<&str> = text.lines().collect();
    assert!(lines[0].starts_with(' ') && lines[0].ends_with("\x1B[0m"));
    assert!(lines[2].starts_with("\x1B[1m"));
    assert!(lines[3].starts_with("\x1B[31m"));
    assert!(lines[3].contains("-50.00"));
    assert!(lines[4].starts_with(' '));
    assert!(lines[4].contains("0.50"));
    let zero = entry(1, "p", "", "", 0, 0);
    let other = entry(1, "p", "", "", 20_000, 0);
    let text = output_table(&vec![&zero, &other], false, 1);
    assert!(text.contains("100.00"));
}

#[test]
fn paths() {
    let (stem, ext) = split_path("/that/output.txt");
    assert_eq!(stem.iter().collect::<String>(), "output");
    assert_eq!(ext.iter().collect::<String>(), "txt");
    let (stem, ext) = split_path("dir.d/.hidden");
    assert_eq!(stem.iter().collect::<String>(), ".hidden");
    assert!(ext.is_empty());
    let (stem, ext) = split_path("a.tar.gz");
    assert_eq!(stem.iter().collect::<String>(), "a.tar");
    assert_eq!(ext.iter().collect::<String>(), "gz");
}

#[test]
fn write_output_empty_writes_nothing() {
    for target in ["stdout", "out.csv", "out.json", "out.xml", "out.txt", "out.bogus"] {
        assert!(matches!(write_output(target, vec![], 0), Ok(Report::Nothing)));
    }
}

#[test]
fn write_output_selects_format_and_sink() {
    let e = entry(5, "p", "", "", 1_000_000, 0);
    match write_output("stdout", vec![&e], 5) {
        Ok(Report::Terminal(t)) => assert!(t.contains("Mean (s)") && t.contains("\x1B[1m")),
        other => panic!("unexpected {:?}", other),
    }
    match write_output("/tmp/r.csv", vec![&e], 5) {
        Ok(Report::File(t)) => assert!(t.starts_with("Timestamp,")),
        other => panic!("unexpected {:?}", other),
    }
    match write_output("stdout.json", vec![&e], 5) {
        Ok(Report::Terminal(t)) => assert!(t.starts_with("[\n")),
        other => panic!("unexpected {:?}", other),
    }
    match write_output("r.xml", vec![&e], 5) {
        Ok(Report::File(t)) => assert!(t.starts_with("<Measurements>")),
        other => panic!("unexpected {:?}", other),
    }
    match write_output("r.table", vec![&e], 5) {
        Ok(Report::File(t)) => assert!(t.contains("Executable") && !t.contains('\x1B')),
        other => panic!("unexpected {:?}", other),
    }
    match write_output("r.pdf", vec![&e], 5) {
        Err(OutputError::UnknownFormat(p)) => assert_eq!(p, "r.pdf"),
        other => panic!("unexpected {:?}", other),
    }
}

#[test]
fn batch_policy() {
    let b = Batch::new(2, false);
    assert!(!b.is_done());
    let b = b.record(RunOutcome::Exited { success: true, status: "exit status: 0".to_string(), elapsed: 10 }).unwrap();
    match b.record(RunOutcome::Exited { success: false, status: "exit status: 1".to_string(), elapsed: 20 }) {
        Err(ExecError::Failed(s)) => assert_eq!(s, "exit status: 1"),
        other => panic!("unexpected {:?}", other.is_ok()),
    }
    let b = Batch::new(2, true);
    let b = b.record(RunOutcome::Exited { success: false, status: "exit status: 1".to_string(), elapsed: 10 }).unwrap();
    let b = b.record(RunOutcome::Exited { success: true, status: "exit status: 0".to_string(), elapsed: 30 }).unwrap();
    assert!(b.is_done());
    assert_eq!(b.finish(), (20, 10));
    match Batch::new(1, true).record(RunOutcome::SpawnFailed("not found".to_string())) {
        Err(ExecError::Spawn(s)) => assert_eq!(s, "not found"),
        other => panic!("unexpected {:?}", other.is_ok()),
    }
    let empty = Batch::new(0, false);
    assert!(empty.is_done());
    assert_eq!(empty.finish(), (0, 0));
}
