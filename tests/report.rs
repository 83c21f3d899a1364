use station_stats::{
    aggregate_all, aggregate_chunk, key_less, plan_chunks, push_tenths, render_report,
    station_report, AggregationTable, RecordError,
};

fn report(input: &str, workers: usize) -> String {
    String::from_utf8(station_report(input.as_bytes(), workers).unwrap()).unwrap()
}

const SAMPLE: &str = "Hamburg;12.0\nBulawayo;8.9\nPalembang;38.8\nHamburg;-34.2\nSt. John's;15.2\nCracow;12.6\nBulawayo;-3\nPalembang;0.1\nHamburg;9.9\n";

#[test]
fn end_to_end_example() {
    assert_eq!(
        report("A;5.0\nB;-3.2\nA;7.0\n", 1),
        "Station;Min;Max;Avg\nA;5.0;7.0;6.0\nB;-3.2;-3.2;-3.2\n"
    );
}

#[test]
fn boundary_example() {
    assert_eq!(report("X;-99.9\nX;99.9\n", 1), "Station;Min;Max;Avg\nX;-99.9;99.9;0.0\n");
}

#[test]
fn same_report_for_any_worker_count() {
    let one = report(SAMPLE, 1);
    for workers in 2..12 {
        assert_eq!(report(SAMPLE, workers), one);
    }
    assert_eq!(report(SAMPLE, 200), one);
}

#[test]
fn sample_report() {
    assert_eq!(
        report(SAMPLE, 3),
        "Station;Min;Max;Avg\nBulawayo;-3.0;8.9;2.9\nCracow;12.6;12.6;12.6\nHamburg;-34.2;12.0;-4.1\nPalembang;0.1;38.8;19.4\nSt. John's;15.2;15.2;15.2\n"
    );
}

#[test]
fn empty_input_gives_header_only() {
    assert_eq!(report("", 4), "Station;Min;Max;Avg\n");
}

#[test]
fn last_record_without_terminator_counts() {
    assert_eq!(report("A;1.0\nA;2.0", 1), "Station;Min;Max;Avg\nA;1.0;2.0;1.5\n");
    assert_eq!(report("A;1.0\nA;2.0", 2), "Station;Min;Max;Avg\nA;1.0;2.0;1.5\n");
}

#[test]
fn negative_average_truncates_toward_zero() {
    assert_eq!(report("N;-0.1\nN;0.0\n", 1), "Station;Min;Max;Avg\nN;-0.1;0.0;0.0\n");
    assert_eq!(report("N;-0.5\nN;-0.2\n", 1), "Station;Min;Max;Avg\nN;-0.5;-0.2;-0.3\n");
}

#[test]
fn keys_sort_by_bytes() {
    assert_eq!(
        report("b;1\nB;2\nab;3\na;4\n", 2),
        "Station;Min;Max;Avg\nB;2.0;2.0;2.0\na;4.0;4.0;4.0\nab;3.0;3.0;3.0\nb;1.0;1.0;1.0\n"
    );
}

#[test]
fn record_without_delimiter_is_malformed() {
    assert_eq!(station_report(b"A;1.0\nbroken\nB;2\n", 1), Err(RecordError::MalformedRecord));
}

#[test]
fn bad_value_is_a_parse_error() {
    assert_eq!(station_report(b"A;1.0\nB;x\n", 2), Err(RecordError::ParseError));
    assert_eq!(station_report(b"A;100.0\n", 1), Err(RecordError::ParseError));
}

#[test]
fn first_bad_record_decides_the_error() {
    assert_eq!(station_report(b"A;zz\nbroken\n", 1), Err(RecordError::ParseError));
    assert_eq!(station_report(b"broken\nA;zz\n", 2), Err(RecordError::MalformedRecord));
}

#[test]
fn chunk_boundaries_follow_terminators() {
    let data = b"A;1.0\nBB;2.0\nC;3\nDDDD;4.5\n";
    for workers in 1..10 {
        let b = plan_chunks(data, workers);
        assert_eq!(b.len(), workers + 1);
        assert_eq!(b[0], 0);
        assert_eq!(b[workers], data.len());
        for i in 0..workers {
            assert!(b[i] <= b[i + 1]);
        }
        for i in 1..workers {
            assert!(b[i] == data.len() || data[b[i] - 1] == b'\n');
        }
    }
    assert_eq!(plan_chunks(data, 2), vec![0, 17, data.len()]);
}

#[test]
fn more_workers_than_records_gives_empty_chunks() {
    let data = b"A;1\n";
    assert_eq!(plan_chunks(data, 3), vec![0, 4, 4, 4]);
    assert_eq!(report("A;1\n", 3), "Station;Min;Max;Avg\nA;1.0;1.0;1.0\n");
}

#[test]
fn chunk_scan_counts_repeated_keys() {
    let data = b"K;1.0\nK;3.0\nL;2.0\nK;-1.0\n";
    let t = aggregate_chunk(data, 0, data.len()).unwrap();
    assert_eq!(t.len(), 2);
    let k = t.stats_at(0);
    assert_eq!(t.key_at(0), b"K");
    assert_eq!((k.min, k.max, k.sum, k.count), (-10, 30, 30, 3));
    let part = aggregate_chunk(data, 6, 18).unwrap();
    assert_eq!(part.len(), 2);
    assert_eq!(part.key_at(0), b"K");
    assert_eq!(part.stats_at(0).count, 1);
}

fn table_of(input: &[u8]) -> AggregationTable {
    aggregate_all(input, 1).unwrap()
}

fn rendered(t: &AggregationTable) -> String {
    String::from_utf8(render_report(t)).unwrap()
}

#[test]
fn merge_order_does_not_matter() {
    let a: &[u8] = b"A;1.0\nB;2.0\n";
    let b: &[u8] = b"B;-4.0\nC;0.5\n";
    let c: &[u8] = b"A;9.9\nC;-0.5\n";
    let mut abc = table_of(a);
    abc.merge_from(&table_of(b));
    abc.merge_from(&table_of(c));
    let mut cba = table_of(c);
    let mut ba = table_of(b);
    ba.merge_from(&table_of(a));
    cba.merge_from(&ba);
    assert_eq!(rendered(&abc), rendered(&cba));
    assert_eq!(
        rendered(&abc),
        "Station;Min;Max;Avg\nA;1.0;9.9;5.4\nB;-4.0;2.0;-1.0\nC;-0.5;0.5;0.0\n"
    );
}

#[test]
fn try_merge_accepts_ordinary_tables() {
    let mut t = table_of(b"A;1.0\n");
    assert!(t.try_merge_from(&table_of(b"A;2.0\nB;3.0\n")));
    assert_eq!(rendered(&t), "Station;Min;Max;Avg\nA;1.0;2.0;1.5\nB;3.0;3.0;3.0\n");
}

#[test]
fn absorb_and_merge_entry() {
    let mut t = AggregationTable::new();
    t.absorb(b"x", 5);
    t.absorb(b"x", -5);
    t.absorb(b"y", 1);
    assert_eq!(t.len(), 2);
    let s = t.stats_at(0);
    assert_eq!((s.min, s.max, s.sum, s.count), (-5, 5, 0, 2));
    assert_eq!(rendered(&t), "Station;Min;Max;Avg\nx;-0.5;0.5;0.0\ny;0.1;0.1;0.1\n");
}

#[test]
fn tenths_render_with_one_digit() {
    let cases: [(i64, &str); 7] =
        [(-5, "-0.5"), (0, "0.0"), (7, "0.7"), (120, "12.0"), (-999, "-99.9"), (999, "99.9"), (12345, "1234.5")];
    for (v, want) in cases {
        let mut out = Vec::new();
        push_tenths(&mut out, v);
        assert_eq!(String::from_utf8(out).unwrap(), want);
    }
}

#[test]
fn byte_order_comparison() {
    assert!(key_less(b"", b"a"));
    assert!(!key_less(b"a", b"a"));
    assert!(key_less(b"a", b"ab"));
    assert!(key_less(b"B", b"a"));
    assert!(!key_less(b"b", b"ab"));
}

#[test]
fn station_stats_absorb_and_combine() {
    let mut s = station_stats::StationStats::new(12);
    s.absorb(-30);
    s.absorb(5);
    assert_eq!((s.min, s.max, s.sum, s.count), (-30, 12, -13, 3));
    let mut t = station_stats::StationStats::new(40);
    t.combine_with(&s);
    assert_eq!((t.min, t.max, t.sum, t.count), (-30, 40, 27, 4));
}
