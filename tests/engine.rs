use station_stats::boundary::{process_chunk, resolve};
use station_stats::error::EngineError;
use station_stats::parse::{parse_record, parse_value};
use station_stats::plan::{plan_chunks, ByteRange};
use station_stats::report::{finalize, name_less, StationReport};
use station_stats::scan::process_buffer;
use station_stats::stats::{round_ratio, StationStats};
use station_stats::table::StationTable;

fn summary(r: &StationReport) -> (String, i32, i32, i32, u64) {
    (String::from_utf8(r.name.clone()).unwrap(), r.min, r.mean, r.max, r.count)
}

fn report_of(buf: &[u8]) -> Vec<(String, i32, i32, i32, u64)> {
    let t = process_buffer(buf).unwrap();
    finalize(&t).iter().map(summary).collect()
}

/// Runs every planned chunk of `file` and merges the tables, stage by stage.
fn run_plan(file: &[u8], buffer: u64, width: usize, margin: u64) -> StationTable {
    let stages = plan_chunks(file.len() as u64, buffer, width, margin);
    let mut global = StationTable::new();
    for stage in stages {
        for r in stage {
            let ByteRange { start, len, nominal, at_start, at_eof } = r;
            let bytes = &file[start as usize..(start + len) as usize];
            let t = process_chunk(bytes, nominal as usize, at_start, at_eof).unwrap();
            global.merge(&t);
        }
    }
    global
}

#[test]
fn scenario_three_records() {
    let t = process_buffer(b"A;10.0\nB;-5.5\nA;20.0\n").unwrap();
    assert_eq!(t.records(), 3);
    assert_eq!(t.len(), 2);
    let r: Vec<_> = finalize(&t).iter().map(summary).collect();
    assert_eq!(
        r,
        vec![
            ("A".to_string(), 100, 150, 200, 2),
            ("B".to_string(), -55, -55, -55, 1),
        ]
    );
}

#[test]
fn scenario_ten_thousand_zeros() {
    let buf = b"Station;0.0\n".repeat(10_000);
    let t = process_buffer(&buf).unwrap();
    assert_eq!(t.records(), 10_000);
    let r: Vec<_> = finalize(&t).iter().map(summary).collect();
    assert_eq!(r, vec![("Station".to_string(), 0, 0, 0, 10_000)]);
}

#[test]
fn rounding_halves_go_up() {
    // 0.05 degrees is half a tenth.
    assert_eq!(round_ratio(1, 2), 1);
    assert_eq!(round_ratio(-1, 2), 0);
    // 0.04 degrees.
    assert_eq!(round_ratio(2, 5), 0);
    assert_eq!(round_ratio(-3, 2), -1);
    assert_eq!(round_ratio(7, 3), 2);
}

#[test]
fn mean_rounds_towards_positive_on_ties() {
    assert_eq!(report_of(b"X;0.1\nX;0.0\n"), vec![("X".to_string(), 0, 1, 1, 2)]);
    assert_eq!(report_of(b"X;-0.1\nX;0.0\n"), vec![("X".to_string(), -1, 0, 0, 2)]);
    assert_eq!(report_of(b"X;1.0\nX;1.0\nX;1.1\n"), vec![("X".to_string(), 10, 10, 11, 3)]);
}

#[test]
fn stats_merge_and_add() {
    let mut a = StationStats::new(-20);
    a.add_reading(35);
    let mut b = StationStats::new(999);
    b.add_reading(-999);
    a.merge(&b);
    assert_eq!((a.sum, a.count, a.min, a.max), (15, 4, -999, 999));
    assert_eq!(a.mean(), 4);
}

#[test]
fn parse_values_in_tenths() {
    assert_eq!(parse_value(b"12.3"), Some(123));
    assert_eq!(parse_value(b"-0.7"), Some(-7));
    assert_eq!(parse_value(b"99.9"), Some(999));
    assert_eq!(parse_value(b"-99.9"), Some(-999));
    assert_eq!(parse_value(b"100.0"), None);
    assert_eq!(parse_value(b"1.23"), None);
    assert_eq!(parse_value(b"1."), None);
    assert_eq!(parse_value(b".5"), None);
    assert_eq!(parse_value(b"1a.5"), None);
    assert_eq!(parse_value(b"--1.5"), None);
}

#[test]
fn parse_records() {
    assert_eq!(parse_record(b"Hamburg;12.0"), Some((b"Hamburg".to_vec(), 120)));
    assert_eq!(parse_record(b"St. John's;-3.4"), Some((b"St. John's".to_vec(), -34)));
    assert_eq!(parse_record(b"NoDelimiter 1.0"), None);
    assert_eq!(parse_record(b";1.0"), None);
    assert_eq!(parse_record(b"A;1.0;2.0"), None);
    let long = [b'n'; 101];
    let mut line = long.to_vec();
    line.extend_from_slice(b";1.0");
    assert_eq!(parse_record(&line), None);
    let mut line = long[..100].to_vec();
    line.extend_from_slice(b";1.0");
    assert_eq!(parse_record(&line), Some((long[..100].to_vec(), 10)));
}

#[test]
fn malformed_record_names_its_line() {
    match process_buffer(b"A;1.0\nB;2.0\nC;x\nD;1.0\n") {
        Err(e) => assert_eq!(e, EngineError::MalformedRecord { line: 2 }),
        Ok(_) => panic!("accepted a malformed record"),
    }
}

#[test]
fn last_line_without_newline_counts() {
    let t = process_buffer(b"A;1.0\nA;3.0").unwrap();
    assert_eq!(t.records(), 2);
    assert_eq!(report_of(b"A;1.0\nA;3.0"), vec![("A".to_string(), 10, 20, 30, 2)]);
}

#[test]
fn distinct_names_stay_apart() {
    // Names that share a long prefix must not be merged.
    let buf = b"abcdefghijklmnopqrstuvwxyz;1.0\nabcdefghijklmnopqrstuvwxyZ;2.0\nabcdefghijklmnopqrstuvwxyz;3.0\n";
    assert_eq!(
        report_of(buf),
        vec![
            ("abcdefghijklmnopqrstuvwxyZ".to_string(), 20, 20, 20, 1),
            ("abcdefghijklmnopqrstuvwxyz".to_string(), 10, 20, 30, 2),
        ]
    );
}

#[test]
fn names_in_byte_order() {
    assert!(name_less(b"Abc", b"abc"));
    assert!(name_less(b"ab", b"abc"));
    assert!(!name_less(b"abc", b"abc"));
    assert!(!name_less(b"b", b"abc"));
    assert!(name_less(b"", b"a"));
    let r = report_of("z;1.0\nÄ;1.0\nb;1.0\nB;1.0\n".as_bytes());
    let names: Vec<_> = r.into_iter().map(|x| x.0).collect();
    assert_eq!(names, vec!["B", "b", "z", "Ä"]);
}

#[test]
fn merge_order_does_not_matter() {
    let parts: [&[u8]; 3] = [b"A;1.0\nB;2.0\n", b"B;-3.0\nC;4.5\nA;9.9\n", b"C;-0.5\n"];
    let whole = report_of(&parts.concat());
    let orders = [[0, 1, 2], [2, 1, 0], [1, 0, 2], [2, 0, 1]];
    for order in orders {
        let mut g = StationTable::new();
        for i in order {
            g.merge(&process_buffer(parts[i]).unwrap());
        }
        assert_eq!(g.records(), 6);
        let r: Vec<_> = finalize(&g).iter().map(summary).collect();
        assert_eq!(r, whole);
    }
    // Grouped differently: (p0 + p1) + p2 against p0 + (p1 + p2).
    let mut left = process_buffer(parts[0]).unwrap();
    left.merge(&process_buffer(parts[1]).unwrap());
    left.merge(&process_buffer(parts[2]).unwrap());
    let mut right = process_buffer(parts[1]).unwrap();
    right.merge(&process_buffer(parts[2]).unwrap());
    let mut outer = process_buffer(parts[0]).unwrap();
    outer.merge(&right);
    let l: Vec<_> = finalize(&left).iter().map(summary).collect();
    let r: Vec<_> = finalize(&outer).iter().map(summary).collect();
    assert_eq!(l, r);
    assert_eq!(l, whole);
}

#[test]
fn every_split_offset_keeps_each_record_once() {
    let file = b"Alpha;1.0\nBe;-2.5\nGamma;33.3\nBe;4.0\nAlpha;-9.9\n";
    let whole = report_of(file);
    let margin = 16usize;
    for split in 0..=file.len() {
        let end0 = (split + margin).min(file.len());
        let (s0, e0) = resolve(&file[..end0], split, true, split + margin >= file.len()).unwrap();
        let (s1, e1) = resolve(&file[split..], file.len() - split, false, true).unwrap();
        let mut joined = file[s0..e0].to_vec();
        joined.extend_from_slice(&file[split + s1..split + e1]);
        assert_eq!(&joined[..], &file[..], "split at {}", split);
        let mut g = process_buffer(&file[s0..e0]).unwrap();
        g.merge(&process_buffer(&file[split + s1..split + e1]).unwrap());
        assert_eq!(g.records(), 5);
        let r: Vec<_> = finalize(&g).iter().map(summary).collect();
        assert_eq!(r, whole);
    }
}

#[test]
fn boundary_one_byte_before_newline() {
    // The first line is 9 bytes with its newline at offset 8; chunks of 7
    // and 8 bytes end one byte and zero bytes before it.
    let file = b"North;5.1\nSouth;-7.3\nNorth;1.0\n";
    let whole = report_of(file);
    for buffer in [7u64, 8, 9, 10] {
        let g = run_plan(file, buffer, 2, 16);
        assert_eq!(g.records(), 3, "buffer {}", buffer);
        let r: Vec<_> = finalize(&g).iter().map(summary).collect();
        assert_eq!(r, whole, "buffer {}", buffer);
    }
}

#[test]
fn staged_pipeline_matches_single_pass() {
    let mut file = Vec::new();
    for i in 0..500u32 {
        let name = ["Oslo", "Lima", "Cairo", "Perth", "Quito", "Baku"][(i % 6) as usize];
        let v = (i * 37 % 1999) as i32 - 999;
        let sign = if v < 0 { "-" } else { "" };
        file.extend_from_slice(format!("{};{}{}.{}\n", name, sign, v.abs() / 10, v.abs() % 10).as_bytes());
    }
    let once = report_of(&file);
    let twice = report_of(&file);
    assert_eq!(once, twice);
    for (buffer, width) in [(64u64, 3usize), (101, 1), (997, 4), (5000, 2), (100_000, 8)] {
        let g = run_plan(&file, buffer, width, 64);
        assert_eq!(g.records(), 500);
        let r: Vec<_> = finalize(&g).iter().map(summary).collect();
        assert_eq!(r, once);
    }
}

#[test]
fn short_margin_is_reported() {
    // No newline within the bytes read, and the file goes on.
    assert_eq!(resolve(b"abc;1.0", 3, false, false), Err(EngineError::BoundaryOverrunExceeded));
    assert_eq!(resolve(b"x\nabc;1.0", 3, false, false), Err(EngineError::BoundaryOverrunExceeded));
    assert_eq!(resolve(b"x\nab;1.0\nc", 3, false, false), Ok((2, 9)));
    assert_eq!(resolve(b"abc;1.0", 3, false, true), Ok((7, 7)));
    assert_eq!(resolve(b"abc;1.0", 3, true, true), Ok((0, 7)));
    assert!(matches!(
        process_chunk(b"abc;1.0", 3, false, false),
        Err(EngineError::BoundaryOverrunExceeded)
    ));
}

#[test]
fn plan_covers_the_file() {
    let stages = plan_chunks(100, 30, 2, 10);
    let flat: Vec<ByteRange> = stages.iter().flatten().copied().collect();
    assert_eq!(stages.len(), 2);
    assert_eq!(stages[0].len(), 2);
    assert_eq!(stages[1].len(), 2);
    assert_eq!(
        flat.iter().map(|r| (r.start, r.len, r.at_start, r.at_eof)).collect::<Vec<_>>(),
        vec![(0, 40, true, false), (30, 40, false, false), (60, 40, false, true), (90, 10, false, true)]
    );
    assert!(flat.iter().all(|r| r.nominal == 30));
    assert_eq!(plan_chunks(0, 30, 2, 10).len(), 0);
    let one = plan_chunks(30, 30, 4, 10);
    assert_eq!(one.len(), 1);
    assert_eq!(one[0].len(), 1);
    assert_eq!(plan_chunks(31, 30, 1, 10).len(), 2);
}

#[test]
fn table_entries() {
    let mut t = StationTable::new();
    t.add(b"b", 5);
    t.add(b"a", -5);
    t.add(b"b", 7);
    assert_eq!(t.len(), 2);
    assert_eq!(t.records(), 3);
    let (n0, s0) = t.entry(0);
    assert_eq!(n0, b"b");
    assert_eq!((s0.sum, s0.count, s0.min, s0.max), (12, 2, 5, 7));
    let (n1, s1) = t.entry(1);
    assert_eq!(n1, b"a");
    assert_eq!((s1.sum, s1.count), (-5, 1));
}
