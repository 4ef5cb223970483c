use station_stats::{
    format_report, merge_outcomes, plan, reconcile, ChunkOutcome, ChunkParser, Error, StationMap,
};

/// Runs the whole computation over `input`, each range fed in pieces of at
/// most `capacity` bytes.
fn summarize(input: &[u8], workers: usize, capacity: usize) -> Result<String, Error> {
    let ranges = plan(workers, input.len() as u64);
    let mut merged: Option<ChunkOutcome> = None;
    for (start, end) in ranges {
        let chunk = &input[start as usize..end as usize];
        let mut parser = ChunkParser::new(start == 0, capacity);
        let mut at = 0;
        loop {
            let room = parser.make_room()?;
            let n = room.min(chunk.len() - at);
            if n == 0 {
                break;
            }
            parser.feed(&chunk[at..at + n])?;
            at += n;
        }
        let outcome = parser.finish();
        merged = Some(match merged {
            None => outcome,
            Some(mut m) => {
                merge_outcomes(&mut m, outcome)?;
                m
            }
        });
    }
    let table = reconcile(merged.unwrap())?;
    Ok(String::from_utf8(format_report(table)).unwrap())
}

const SAMPLE: &[u8] = b"StationA;10.0\nStationB;-5.5\nStationA;20.0\n";
const SAMPLE_OUT: &str = "{StationA=10.0/15.0/20.0, StationB=-5.5/-5.5/-5.5}";

#[test]
fn one_worker_sample() {
    assert_eq!(summarize(SAMPLE, 1, 8192).unwrap(), SAMPLE_OUT);
}

#[test]
fn two_workers_split_mid_line() {
    let ranges = plan(2, SAMPLE.len() as u64);
    assert_eq!(ranges, vec![(0, 21), (21, 42)]);
    // byte 21 lies inside "StationB;-5.5"
    assert_eq!(&SAMPLE[14..28], b"StationB;-5.5\n");
    assert_eq!(summarize(SAMPLE, 2, 8192).unwrap(), SAMPLE_OUT);
}

#[test]
fn worker_count_does_not_change_the_result() {
    let input = b"Hamburg;12.0\nBulawayo;8.9\nPalembang;38.8\nSt. John's;15.2\nCracow;12.6\n\
Bridgetown;26.9\nIstanbul;6.2\nRoseau;34.4\nConakry;31.2\nIstanbul;23.0\nHamburg;-3.4\n\
Cracow;-12.6\nPalembang;-0.1\nBulawayo;0.0\n";
    let expected = summarize(input, 1, 8192).unwrap();
    assert_eq!(
        expected,
        "{Bridgetown=26.9/26.9/26.9, Bulawayo=0.0/4.5/8.9, Conakry=31.2/31.2/31.2, \
Cracow=-12.6/0.0/12.6, Hamburg=-3.4/4.3/12.0, Istanbul=6.2/14.6/23.0, \
Palembang=-0.1/19.4/38.8, Roseau=34.4/34.4/34.4, St. John's=15.2/15.2/15.2}"
    );
    for workers in 1..=12 {
        for capacity in [32, 64, 8192] {
            assert_eq!(summarize(input, workers, capacity).unwrap(), expected);
        }
    }
}

#[test]
fn more_workers_than_bytes() {
    let input = b"a;1.0\n";
    assert_eq!(summarize(input, 10, 8192).unwrap(), "{a=1.0/1.0/1.0}");
}

#[test]
fn empty_input_gives_empty_braces() {
    assert_eq!(summarize(b"", 3, 64).unwrap(), "{}");
}

#[test]
fn leftovers_rebuild_whole_records() {
    let input = b"xx;1.0\nyy;2.0\nzz;3.0\n";
    let ranges = plan(3, input.len() as u64);
    let mut joined = Vec::new();
    for (start, end) in ranges {
        let mut parser = ChunkParser::new(start == 0, 64);
        parser.feed(&input[start as usize..end as usize]).unwrap();
        let outcome = parser.finish();
        joined.extend_from_slice(&outcome.leftover);
    }
    // Range 0 is "xx;1.0\n" (7 bytes), 1 is "yy;2.0\n", 2 is "zz;3.0\n".
    // Only the leading line of the later ranges is handed on.
    assert_eq!(joined, b"yy;2.0\nzz;3.0\n".to_vec());
    let mut table = StationMap::new();
    let consumed = station_stats::parse_records(&mut table, &joined).unwrap();
    assert_eq!(consumed, joined.len());
}

#[test]
fn leftover_of_a_range_split_mid_line() {
    let mut first = ChunkParser::new(true, 64);
    first.feed(b"ab;1.0\ncd;2").unwrap();
    let a = first.finish();
    assert_eq!(a.leftover, b"cd;2".to_vec());
    let mut second = ChunkParser::new(false, 64);
    second.feed(b".0\nef;3.0\ngh").unwrap();
    let b = second.finish();
    assert_eq!(b.leftover, b".0\ngh".to_vec());
    assert_eq!(b.table.get(b"ef").unwrap().count, 1);
    assert!(b.table.get(b"cd").is_none());
}

#[test]
fn range_without_newline_is_all_leftover() {
    let mut p = ChunkParser::new(false, 64);
    p.feed(b"abc;1").unwrap();
    let out = p.finish();
    assert_eq!(out.leftover, b"abc;1".to_vec());
    assert!(out.table.into_entries().is_empty());
}

#[test]
fn malformed_value_is_reported() {
    assert_eq!(summarize(b"a;5\n", 1, 64), Err(Error::Malformed));
    assert_eq!(summarize(b"a;12345678901234567.0\n", 1, 64), Err(Error::Malformed));
}

#[test]
fn record_longer_than_buffer() {
    assert_eq!(summarize(b"a_long_station_name;12.5\n", 1, 8), Err(Error::LineTooLong));
}

#[test]
fn missing_final_newline_is_incomplete() {
    assert_eq!(summarize(b"a;1.0\nb;2.0", 1, 64), Err(Error::Incomplete));
    assert_eq!(summarize(b"a;1.0\nb;2.0", 3, 64), Err(Error::Incomplete));
}

#[test]
fn keys_sort_by_bytes() {
    let input = b"b;1.0\nB;2.0\nab;3.0\na;4.0\n";
    assert_eq!(
        summarize(input, 2, 64).unwrap(),
        "{B=2.0/2.0/2.0, a=4.0/4.0/4.0, ab=3.0/3.0/3.0, b=1.0/1.0/1.0}"
    );
}

#[test]
fn plan_gives_remainder_to_last() {
    assert_eq!(plan(3, 10), vec![(0, 3), (3, 6), (6, 10)]);
    assert_eq!(plan(1, 7), vec![(0, 7)]);
    assert_eq!(plan(4, 2), vec![(0, 0), (0, 0), (0, 0), (0, 2)]);
}

#[test]
fn make_room_compacts_unread_bytes() {
    let mut p = ChunkParser::new(true, 8);
    assert_eq!(p.make_room().unwrap(), 8);
    p.feed(b"ab;1.0\nc").unwrap();
    assert_eq!(p.make_room().unwrap(), 7);
    p.feed(b";2.0\n").unwrap();
    assert_eq!(p.make_room().unwrap(), 8);
    p.feed(b"long;1.5").unwrap();
    assert_eq!(p.make_room(), Err(Error::LineTooLong));
}
