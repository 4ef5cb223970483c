use station_stats::{Buffer, BufReader, Error, StationMap};

fn sorted(t: StationMap) -> Vec<(Vec<u8>, u64, i64, i64, i128)> {
    let mut v: Vec<_> = t
        .into_entries()
        .into_iter()
        .map(|(k, s)| (k, s.count, s.min, s.max, s.sum))
        .collect();
    v.sort();
    v
}

fn table(items: &[(&[u8], i64)]) -> StationMap {
    let mut t = StationMap::new();
    for (k, v) in items {
        t.record(k, *v).unwrap();
    }
    t
}

#[test]
fn record_and_get() {
    let mut t = StationMap::new();
    assert!(t.get(b"x").is_none());
    t.record(b"x", 12).unwrap();
    t.record(b"x", -3).unwrap();
    t.record(b"y", 7).unwrap();
    let x = t.get(b"x").unwrap();
    assert_eq!((x.count, x.min, x.max, x.sum), (2, -3, 12, 9));
    assert_eq!(t.get(b"y").unwrap().count, 1);
}

#[test]
fn merge_keeps_one_sided_keys_and_combines_shared() {
    let mut a = table(&[(b"p", 10), (b"q", 20)]);
    let b = table(&[(b"q", -5), (b"r", 1)]);
    a.merge(b).unwrap();
    assert_eq!(
        sorted(a),
        vec![
            (b"p".to_vec(), 1, 10, 10, 10),
            (b"q".to_vec(), 2, -5, 20, 15),
            (b"r".to_vec(), 1, 1, 1, 1)
        ]
    );
}

#[test]
fn merge_order_and_grouping_do_not_matter() {
    let items_a: &[(&[u8], i64)] = &[(b"k", 1), (b"m", 5)];
    let items_b: &[(&[u8], i64)] = &[(b"k", -4), (b"n", 9)];
    let items_c: &[(&[u8], i64)] = &[(b"m", 2), (b"k", 8)];
    let mut ab = table(items_a);
    ab.merge(table(items_b)).unwrap();
    ab.merge(table(items_c)).unwrap();
    let mut bc = table(items_b);
    bc.merge(table(items_c)).unwrap();
    let mut a_bc = table(items_a);
    a_bc.merge(bc).unwrap();
    let mut ba = table(items_b);
    ba.merge(table(items_a)).unwrap();
    let mut ab2 = table(items_a);
    ab2.merge(table(items_b)).unwrap();
    assert_eq!(sorted(ab), sorted(a_bc));
    assert_eq!(sorted(ba), sorted(ab2));
}

#[test]
fn parse_records_reports_consumed_bytes() {
    let mut t = StationMap::new();
    let n = station_stats::parse_records(&mut t, b"a;1.0\nb;2.5\nc;3").unwrap();
    assert_eq!(n, 12);
    assert_eq!(t.get(b"b").unwrap().sum, 25);
    assert!(t.get(b"c").is_none());
}

#[test]
fn parse_records_malformed() {
    let mut t = StationMap::new();
    assert_eq!(station_stats::parse_records(&mut t, b"a;1\n"), Err(Error::Malformed));
}

#[test]
fn buffer_keeps_unread_bytes() {
    let mut b = Buffer::with_capacity(8);
    assert_eq!(b.fill_buf(b"abcdefghij"), b"abcdefgh");
    b.consume(5);
    assert_eq!(b.buffer(), b"fgh");
    assert_eq!(b.spare_capacity(), 0);
    b.backshift();
    assert_eq!(b.buffer(), b"fgh");
    assert_eq!(b.spare_capacity(), 5);
    assert_eq!(b.read_more(b"123456789"), 5);
    assert_eq!(b.buffer(), b"fgh12345");
    assert_eq!(b.fill_buf(b"zz"), b"fgh12345");
    b.consume(100);
    assert_eq!(b.buffer(), b"");
    assert_eq!(b.fill_buf(b"zz"), b"zz");
}

#[test]
fn reader_delegates_to_buffer() {
    let mut r = BufReader::with_capacity(4, ());
    assert_eq!(r.fill_buf(b"hello"), b"hell");
    r.consume(2);
    assert_eq!(r.buf.buffer(), b"ll");
    let d = BufReader::new(0u8);
    assert_eq!(d.buf.spare_capacity(), 8192);
}
