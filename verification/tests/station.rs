use onebrc::station::Station;

#[test]
fn default_holds_sentinels() {
    let s = Station::default();
    assert_eq!(s.min, i64::MAX);
    assert_eq!(s.max, i64::MIN);
    assert_eq!(s.sum, 0);
    assert_eq!(s.count, 0);
}

#[test]
fn new_seeds_with_reading() {
    let s = Station::new(12300);
    assert_eq!(s.min, 12300);
    assert_eq!(s.max, 12300);
    assert_eq!(s.sum, 12300);
    assert_eq!(s.count, 1);
}

#[test]
fn add_tracks_extrema_sum_count() {
    let mut s = Station::new(12000);
    s.add(14000);
    s.add(10000);
    assert_eq!(s.min, 10000);
    assert_eq!(s.max, 14000);
    assert_eq!(s.sum, 36000);
    assert_eq!(s.count, 3);
    assert_eq!(s.avg(), 12000);
}

#[test]
fn avg_truncates_toward_zero() {
    let mut s = Station::new(100);
    s.add(0);
    s.add(0);
    assert_eq!(s.avg(), 33);
    let mut t = Station::new(-100);
    t.add(0);
    t.add(0);
    assert_eq!(t.avg(), -33);
}

#[test]
fn mean_lies_between_extrema() {
    let mut s = Station::new(-5000);
    s.add(5000);
    s.add(200);
    let m = s.avg();
    assert!(s.min <= m && m <= s.max);
}

#[test]
fn summary_repeated_queries_agree() {
    let mut s = Station::new(1000);
    s.add(3000);
    let first = s.summary();
    let second = s.summary();
    assert_eq!(first, second);
    assert_eq!(first, (1000, 2000, 3000));
    assert_eq!(s.sum, 4000);
    assert_eq!(s.count, 2);
}

#[test]
fn summary_bytes_renders_three_fields() {
    let mut s = Station::new(1000);
    s.add(2000);
    s.add(3000);
    assert_eq!(s.summary_bytes(), b"1.0/2.0/3.0".to_vec());
}
