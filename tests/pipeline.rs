use obrc_rs::{
    format_results, merge_stations, parse_tenths, report_bytes, split_file, thread,
    AggregateError, ProcessedStation, StationTable,
};

fn part_bounds(data: &[u8], offsets: &[usize]) -> Vec<(usize, usize)> {
    let mut bounds = Vec::new();
    for i in 0..offsets.len() {
        let end = if i + 1 < offsets.len() { offsets[i + 1] } else { data.len() };
        bounds.push((offsets[i], end));
    }
    bounds
}

fn scan_all(data: &[u8], workers: usize) -> Result<Vec<ProcessedStation>, AggregateError> {
    let offsets = split_file(workers, data)?;
    let mut tables: Vec<StationTable> = Vec::new();
    for (start, end) in part_bounds(data, &offsets) {
        tables.push(thread(data, start, end)?);
    }
    Ok(merge_stations(tables).into_sorted())
}

fn run(data: &[u8], workers: usize) -> Result<String, AggregateError> {
    let stations = scan_all(data, workers)?;
    Ok(format_results(&stations).expect("report is valid UTF-8"))
}

fn many_records() -> Vec<u8> {
    let names = ["Abha", "Zagreb", "Oslo", "Hamburg", "Bulawayo", "Palembang", "St. John's"];
    let mut out = String::new();
    for i in 0..500usize {
        let name = names[(i * 7 + i / 3) % names.len()];
        let tenths = ((i * 37) % 1999) as i64 - 999;
        let sign = if tenths < 0 { "-" } else { "" };
        let mag = tenths.abs();
        out.push_str(&format!("{};{}{}.{}\n", name, sign, mag / 10, mag % 10));
    }
    out.into_bytes()
}

#[test]
fn parse_boundary_values() {
    assert_eq!(parse_tenths(b"0.0"), Some(0));
    assert_eq!(parse_tenths(b"-0.1"), Some(-1));
    assert_eq!(parse_tenths(b"25.3"), Some(253));
    assert_eq!(parse_tenths(b"-25.3"), Some(-253));
    assert_eq!(parse_tenths(b"99.9"), Some(999));
    assert_eq!(parse_tenths(b"-99.9"), Some(-999));
    assert_eq!(parse_tenths(b"5.0"), Some(50));
}

#[test]
fn parse_rejects_malformed() {
    for bad in [&b""[..], b"1.23", b"+1.0", b"123.4", b"1.", b".5", b"-", b"1,0", b"a.0", b"--1.0"] {
        assert_eq!(parse_tenths(bad), None, "{:?}", bad);
    }
}

#[test]
fn round_trip_three_records() {
    let data = b"Oslo;-2.3\nOslo;5.0\nParis;10.0\n";
    assert_eq!(run(data, 1).unwrap(), "{Oslo=-2.3/1.4/5.0, Paris=10.0/10.0/10.0}");
}

#[test]
fn worker_count_does_not_change_report() {
    let data = many_records();
    let one = run(&data, 1).unwrap();
    for workers in [2usize, 3, 5, 8, 16] {
        assert_eq!(run(&data, workers).unwrap(), one);
    }
}

#[test]
fn partitions_rebuild_the_file() {
    let data = b"Hamburg;12.0\nBulawayo;8.9\nPalembang;38.8\nSt. John's;15.2\nCracow;12.6\n";
    for workers in 1..6usize {
        let offsets = split_file(workers, data).unwrap();
        assert_eq!(offsets.len(), workers);
        assert_eq!(offsets[0], 0);
        let mut rebuilt = Vec::new();
        for (start, end) in part_bounds(data, &offsets) {
            assert!(start == 0 || data[start - 1] == b'\n');
            assert!(end == data.len() || data[end - 1] == b'\n');
            rebuilt.extend_from_slice(&data[start..end]);
        }
        assert_eq!(&rebuilt[..], &data[..]);
    }
}

#[test]
fn split_lands_after_next_line_break() {
    // 30 bytes, two workers: the naive midpoint 15 falls inside the second record.
    let data = b"Abcdefgh;1.0\nXyz;22.2\nQrs;3.3\n";
    let offsets = split_file(2, data).unwrap();
    assert_eq!(offsets, vec![0, 22]);
}

#[test]
fn split_without_line_break_fails() {
    assert_eq!(split_file(2, b"Oslo;1.0"), Err(AggregateError::NoLineBreak));
    assert_eq!(split_file(1, b"Oslo;1.0"), Ok(vec![0]));
}

#[test]
fn missing_delimiter_aborts() {
    let data = b"Oslo;1.0\nOslo-2.3\nParis;3.0\n";
    assert_eq!(thread(data, 0, data.len()).err(), Some(AggregateError::MissingDelimiter));
    assert_eq!(run(data, 1).err(), Some(AggregateError::MissingDelimiter));
}

#[test]
fn invalid_value_aborts() {
    let data = b"Oslo;1.0\nOslo;2.34\n";
    assert_eq!(thread(data, 0, data.len()).err(), Some(AggregateError::InvalidValue));
    let data = b"Oslo;\n";
    assert_eq!(thread(data, 0, data.len()).err(), Some(AggregateError::InvalidValue));
}

#[test]
fn single_record_aggregate() {
    let data = b"Oslo;-2.3\n";
    let stations = scan_all(data, 1).unwrap();
    assert_eq!(stations.len(), 1);
    let s = &stations[0];
    assert_eq!(s.name(), b"Oslo");
    assert_eq!((s.min(), s.max(), s.sum(), s.count()), (-23, -23, -23, 1));
}

#[test]
fn second_record_updates_aggregate() {
    let data = b"Oslo;-2.3\nOslo;5.0\n";
    let stations = scan_all(data, 1).unwrap();
    let s = &stations[0];
    assert_eq!((s.min(), s.max(), s.sum(), s.count()), (-23, 50, 27, 2));
}

#[test]
fn station_add_and_absorb() {
    let mut a = ProcessedStation::new(b"K".to_vec(), 10);
    a.add(-5);
    let mut b = ProcessedStation::new(b"K".to_vec(), 30);
    b.absorb(&a);
    assert_eq!((b.min(), b.max(), b.sum(), b.count()), (-5, 30, 35, 3));
    let c = b.duplicate();
    assert_eq!(c.name(), b"K");
    assert_eq!((c.min(), c.max(), c.sum(), c.count()), (-5, 30, 35, 3));
}

#[test]
fn last_line_without_newline_counts() {
    assert_eq!(run(b"B;1.0\nA;2.0", 1).unwrap(), "{A=2.0/2.0/2.0, B=1.0/1.0/1.0}");
}

#[test]
fn empty_lines_are_skipped() {
    assert_eq!(run(b"A;1.0\n\nA;3.0\n\n", 1).unwrap(), "{A=1.0/2.0/3.0}");
}

#[test]
fn empty_input_gives_empty_report() {
    assert_eq!(run(b"", 1).unwrap(), "{}");
}

#[test]
fn average_rounds_half_to_even() {
    assert_eq!(run(b"A;0.1\nA;0.2\n", 1).unwrap(), "{A=0.1/0.2/0.2}");
    assert_eq!(run(b"A;0.2\nA;0.3\n", 1).unwrap(), "{A=0.2/0.2/0.3}");
    assert_eq!(run(b"A;-0.1\nA;-0.2\n", 1).unwrap(), "{A=-0.2/-0.2/-0.1}");
    assert_eq!(run(b"A;-0.1\nA;0.0\nA;0.0\n", 1).unwrap(), "{A=-0.1/0.0/0.0}");
    assert_eq!(run(b"A;1.0\nA;1.0\nA;1.1\n", 1).unwrap(), "{A=1.0/1.0/1.1}");
}

#[test]
fn keys_sorted_bytewise() {
    let data = "b;1.0\nB;2.0\nab;3.0\na;4.0\n\u{e9};5.0\n".as_bytes();
    assert_eq!(
        run(data, 1).unwrap(),
        "{B=2.0/2.0/2.0, a=4.0/4.0/4.0, ab=3.0/3.0/3.0, b=1.0/1.0/1.0, \u{e9}=5.0/5.0/5.0}"
    );
}

#[test]
fn merge_of_partitions_matches_single_scan() {
    let data = many_records();
    let whole = thread(&data, 0, data.len()).unwrap();
    let offsets = split_file(4, &data).unwrap();
    let mut tables = Vec::new();
    for (start, end) in part_bounds(&data, &offsets) {
        tables.push(thread(&data, start, end).unwrap());
    }
    let merged = merge_stations(tables);
    assert_eq!(merged.records(), 500);
    assert_eq!(merged.records(), whole.records());
    assert_eq!(merged.len(), whole.len());
    let a = merged.into_sorted();
    let b = whole.into_sorted();
    assert_eq!(report_bytes(&a), report_bytes(&b));
}

#[test]
fn merge_order_does_not_matter() {
    let t1 = thread(b"A;1.0\nB;-3.0\n", 0, 13).unwrap();
    let t2 = thread(b"B;4.0\nC;0.5\n", 0, 12).unwrap();
    let t3 = thread(b"A;-1.0\n", 0, 7).unwrap();
    let x = merge_stations(vec![t1, t2, t3]).into_sorted();
    let t1 = thread(b"A;1.0\nB;-3.0\n", 0, 13).unwrap();
    let t2 = thread(b"B;4.0\nC;0.5\n", 0, 12).unwrap();
    let t3 = thread(b"A;-1.0\n", 0, 7).unwrap();
    let y = merge_stations(vec![t3, t1, t2]).into_sorted();
    assert_eq!(report_bytes(&x), report_bytes(&y));
    assert_eq!(
        format_results(&x).unwrap(),
        "{A=-1.0/0.0/1.0, B=-3.0/0.5/4.0, C=0.5/0.5/0.5}"
    );
}

#[test]
fn invalid_utf8_name_gives_no_string() {
    let data = b"\xff\xfe;1.0\n";
    let stations = scan_all(data, 1).unwrap();
    assert_eq!(format_results(&stations), None);
    assert_eq!(report_bytes(&stations), b"{\xff\xfe=1.0/1.0/1.0}".to_vec());
}

#[test]
fn scan_of_a_sub_range() {
    let data = b"X;9.9\nA;1.0\nA;2.0\nY;1.1\n";
    let t = thread(data, 6, 18).unwrap();
    assert_eq!(t.records(), 2);
    assert_eq!(format_results(&t.into_sorted()).unwrap(), "{A=1.0/1.5/2.0}");
}

#[test]
fn aggregate_matches_partitioned_run() {
    let data = many_records();
    for workers in [1usize, 2, 7, 8] {
        let stations = obrc_rs::aggregate(&data, workers).unwrap();
        assert_eq!(format_results(&stations).unwrap(), run(&data, 1).unwrap());
    }
}

#[test]
fn aggregate_reports_first_error() {
    assert_eq!(obrc_rs::aggregate(b"Oslo;1.0", 2).err(), Some(AggregateError::NoLineBreak));
    let data = b"A;1.0\nB;x\nOslo-2.3\n";
    assert_eq!(obrc_rs::aggregate(data, 1).err(), Some(AggregateError::InvalidValue));
    assert_eq!(obrc_rs::aggregate(data, 2).err(), Some(AggregateError::InvalidValue));
}

#[test]
fn table_record_keeps_keys_sorted() {
    let mut t = StationTable::new();
    t.record(b"b", 10);
    t.record(b"a", 20);
    t.record(b"b", -30);
    assert_eq!(t.records(), 3);
    assert_eq!(t.len(), 2);
    let stations = t.into_sorted();
    assert_eq!(stations[0].name(), b"a");
    assert_eq!(stations[1].name(), b"b");
    assert_eq!((stations[1].min(), stations[1].max(), stations[1].sum()), (-30, 10, -20));
}

#[test]
fn compare_bytes_orders_lexicographically() {
    assert_eq!(obrc_rs::compare_bytes(b"ab", b"ab"), 0);
    assert_eq!(obrc_rs::compare_bytes(b"a", b"ab"), -1);
    assert_eq!(obrc_rs::compare_bytes(b"b", b"ab"), 1);
    assert_eq!(obrc_rs::compare_bytes(b"", b""), 0);
}
