use onebrc::engine::LineOutcome;
use onebrc::engine::StationTable;

fn run(lines: &[&[u8]]) -> (usize, Vec<u8>) {
    let owned: Vec<Vec<u8>> = lines.iter().map(|l| l.to_vec()).collect();
    let mut table = StationTable::new();
    let folds = table.process_lines(&owned);
    (folds, table.report())
}

#[test]
fn empty_input_gives_empty_braces() {
    let table = StationTable::new();
    assert_eq!(table.report(), b"{}".to_vec());
}

#[test]
fn single_line_with_trailing_separator() {
    let (folds, report) = run(&[b"A;0.0"]);
    assert_eq!(folds, 1);
    assert_eq!(report, b"{A=0.0/0.0/0.0, }".to_vec());
}

#[test]
fn line_without_separator_is_skipped() {
    let mut table = StationTable::new();
    assert_eq!(table.fold_line(b"malformed-line"), LineOutcome::Skipped);
    assert_eq!(table.report(), b"{}".to_vec());
}

#[test]
fn skipped_lines_do_not_count_as_folds() {
    let (folds, report) = run(&[b"malformed-line", b"Z;7.7"]);
    assert_eq!(folds, 1);
    assert_eq!(report, b"{Z=7.7/7.7/7.7, }".to_vec());
}

#[test]
fn one_station_three_readings() {
    let (folds, report) = run(&[b"Hamburg;12.0", b"Hamburg;14.0", b"Hamburg;10.0"]);
    assert_eq!(folds, 3);
    assert_eq!(report, b"{Hamburg=10.0/12.0/14.0, }".to_vec());
}

#[test]
fn two_stations_interleaved() {
    let (folds, report) = run(&[b"A;1.0", b"B;2.0", b"A;3.0"]);
    assert_eq!(folds, 3);
    assert_eq!(report, b"{A=1.0/2.0/3.0, B=2.0/2.0/2.0, }".to_vec());
}

#[test]
fn negative_and_positive_cancel() {
    let (folds, report) = run(&[b"X;-5.0", b"X;5.0"]);
    assert_eq!(folds, 2);
    assert_eq!(report, b"{X=-5.0/0.0/5.0, }".to_vec());
}

#[test]
fn tenths_mean_is_exact() {
    let (folds, report) = run(&[b"Y;10.1", b"Y;10.2", b"Y;10.3"]);
    assert_eq!(folds, 3);
    assert_eq!(report, b"{Y=10.1/10.2/10.3, }".to_vec());
}

#[test]
fn full_surface_range() {
    let (folds, report) = run(&[b"S;99.9", b"S;-99.9"]);
    assert_eq!(folds, 2);
    assert_eq!(report, b"{S=-99.9/0.0/99.9, }".to_vec());
}

#[test]
fn lines_keep_their_terminators() {
    let (folds, report) = run(&[b"A;1.0\n", b"A;2.0\n"]);
    assert_eq!(folds, 2);
    assert_eq!(report, b"{A=1.0/1.5/2.0, }".to_vec());
}

#[test]
fn fold_line_reports_each_outcome() {
    let mut table = StationTable::new();
    assert_eq!(table.fold_line(b"A;1.0"), LineOutcome::Folded);
    assert_eq!(table.fold_line(b"no separator here"), LineOutcome::Skipped);
    assert_eq!(table.fold_line(b"A;2.0"), LineOutcome::Folded);
    assert_eq!(table.report(), b"{A=1.0/1.5/2.0, }".to_vec());
}

#[test]
fn fold_reading_refuses_overflowing_sum() {
    let mut table = StationTable::new();
    let big = 9_223_372_036_854_775_800i64;
    assert!(table.fold_reading(b"A", big));
    assert!(table.fold_reading(b"A", big) == false);
    assert_eq!(table.fold_reading(b"A", -1), true);
}

#[test]
fn empty_name_is_a_station() {
    let (folds, report) = run(&[b";1.0"]);
    assert_eq!(folds, 1);
    assert_eq!(report, b"{=1.0/1.0/1.0, }".to_vec());
}
