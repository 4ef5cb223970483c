//! Splitting bytes into `key;value\n` records and folding them into a table.

use vstd::prelude::*;
use crate::error::Error;
use crate::measurement::{parsable, parse_measurement, tenths_of, MAX_MEASUREMENT_LEN};
use crate::stats::{add_value, fold_values, Summary};
use crate::table::StationMap;

verus! {

pub const SEMICOLON: u8 = 59;

pub const NEWLINE: u8 = 10;

/// The first position at or after `from` that holds `b`, or the length.
pub open spec fn find_from(s: Seq<u8>, b: u8, from: int) -> int
    decreases s.len() - from,
{
    if from < 0 || from >= s.len() {
        s.len() as int
    } else if s[from] == b {
        from
    } else {
        find_from(s, b, from + 1)
    }
}

/// The complete records at the front of `s`, as key and value bytes. A
/// key runs to the first `;`, its value to the next newline; what follows
/// the last newline so found is not a record.
pub open spec fn split_records(s: Seq<u8>) -> Seq<(Seq<u8>, Seq<u8>)>
    decreases s.len(),
{
    let i = find_from(s, SEMICOLON, 0);
    let j = find_from(s, NEWLINE, i + 1);
    if 0 <= i < j < s.len() {
        seq![(s.subrange(0, i), s.subrange(i + 1, j))] + split_records(s.subrange(j + 1, s.len() as int))
    } else {
        Seq::empty()
    }
}

/// How many bytes at the front of `s` the complete records take.
pub open spec fn consumed_len(s: Seq<u8>) -> nat
    decreases s.len(),
{
    let i = find_from(s, SEMICOLON, 0);
    let j = find_from(s, NEWLINE, i + 1);
    if 0 <= i < j < s.len() {
        (j + 1 + consumed_len(s.subrange(j + 1, s.len() as int))) as nat
    } else {
        0
    }
}

/// Key and value, in tenths, of each record.
pub open spec fn observations(recs: Seq<(Seq<u8>, Seq<u8>)>) -> Seq<(Seq<u8>, int)> {
    recs.map_values(|r: (Seq<u8>, Seq<u8>)| (r.0, tenths_of(r.1)))
}

/// Where folding `recs` into `t` one by one first stops: at a value that
/// cannot be parsed, or at a count that would leave `u64`.
pub open spec fn first_failure(t: Map<Seq<u8>, Summary>, recs: Seq<(Seq<u8>, Seq<u8>)>) -> Option<
    Error,
>
    decreases recs.len(),
{
    if recs.len() == 0 {
        None
    } else if !parsable(recs[0].1) {
        Some(Error::Malformed)
    } else if t.contains_key(recs[0].0) && t[recs[0].0].count >= u64::MAX {
        Some(Error::Overflow)
    } else {
        first_failure(add_value(t, recs[0].0, tenths_of(recs[0].1)), recs.drop_first())
    }
}

/// The first position at or after `from` that holds `b`, or the length.
pub fn find_byte(s: &[u8], b: u8, from: usize) -> (r: usize)
    requires
        from <= s@.len(),
    ensures
        r == find_from(s@, b, from as int),
        from <= r <= s@.len(),
        r < s@.len() ==> s@[r as int] == b,
        forall|k: int| from <= k < r ==> s@[k] != b,
{
    let mut k = from;
    while k < s.len() && s[k] != b
        invariant
            from <= k <= s@.len(),
            find_from(s@, b, from as int) == find_from(s@, b, k as int),
            forall|m: int| from <= m < k ==> s@[m] != b,
        decreases s@.len() - k,
    {
        k = k + 1;
    }
    k
}

/// Folds the complete records at the front of `bytes` into `table` and
/// returns how many bytes they take. Fails where a value field is out of
/// the parsable lengths or a count would leave `u64`; the table is then
/// left part way.
pub fn parse_records(table: &mut StationMap, bytes: &[u8]) -> (r: Result<usize, Error>)
    requires
        old(table).wf(),
    ensures
        final(table).wf(),
        match r {
            Ok(n) => {
                &&& first_failure(old(table)@, split_records(bytes@)) is None
                &&& n == consumed_len(bytes@)
                &&& final(table)@ == fold_values(old(table)@, observations(split_records(bytes@)))
            },
            Err(e) => first_failure(old(table)@, split_records(bytes@)) == Some(e),
        },
{
    let n = bytes.len();
    let mut pos: usize = 0;
    assert(bytes@.subrange(0, n as int) =~= bytes@);
    loop
        invariant
            pos <= n == bytes@.len(),
            table.wf(),
            first_failure(old(table)@, split_records(bytes@)) == first_failure(
                table@,
                split_records(bytes@.subrange(pos as int, n as int)),
            ),
            fold_values(old(table)@, observations(split_records(bytes@))) == fold_values(
                table@,
                observations(split_records(bytes@.subrange(pos as int, n as int))),
            ),
            consumed_len(bytes@) == pos + consumed_len(bytes@.subrange(pos as int, n as int)),
        decreases n - pos,
    {
        let rest = &bytes[pos..n];
        let ghost rs = rest@;
        let i = find_byte(rest, SEMICOLON, 0);
        if i >= rest.len() {
            return Ok(pos);
        }
        let j = find_byte(rest, NEWLINE, i + 1);
        if j >= rest.len() {
            return Ok(pos);
        }
        let ghost tail = rs.subrange(j + 1, rs.len() as int);
        let ghost recs = split_records(rs);
        assert(recs == seq![(rs.subrange(0, i as int), rs.subrange(i + 1, j as int))] + split_records(tail));
        assert(recs.drop_first() =~= split_records(tail));
        assert(observations(recs).drop_first() =~= observations(split_records(tail)));
        assert(tail =~= bytes@.subrange(pos + j + 1, n as int));
        let key = &rest[0..i];
        let value = &rest[i + 1..j];
        if value.len() < 2 || value.len() > MAX_MEASUREMENT_LEN {
            return Err(Error::Malformed);
        }
        let v = parse_measurement(value);
        let recorded = table.record(key, v);
        if recorded.is_err() {
            return Err(Error::Overflow);
        }
        pos = pos + j + 1;
    }
}

} // verus!
