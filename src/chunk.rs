//! Byte ranges of the input, the parser that each range gets, and how
//! their outcomes are put together.

use vstd::prelude::*;
use crate::buffer::Buffer;
use crate::error::Error;
use crate::records::{
    consumed_len, find_byte, find_from, first_failure, observations, parse_records, split_records,
    NEWLINE,
};
use crate::split_lemmas::{
    lemma_consumed_bound, lemma_find_bounds, lemma_find_extend, lemma_find_past,
    lemma_fold_records_extend, lemma_split_pending, pending,
};
use crate::stats::{fold_values, merge_tables, table_of, Summary};
use crate::table::{merge_fits, StationMap};

verus! {

/// Start and end of range `i` when `total` bytes go to `workers` ranges:
/// equal sizes, the last range taking the remainder.
pub open spec fn chunk_range(workers: nat, total: nat, i: nat) -> (nat, nat) {
    let size = total / workers;
    let end = if i + 1 == workers {
        total
    } else {
        (i + 1) * size
    };
    ((i * size) as nat, end as nat)
}

/// The ranges `[start, end)` that `worker_count` workers parse.
pub fn plan(worker_count: usize, total_length: u64) -> (r: Vec<(u64, u64)>)
    requires
        worker_count >= 1,
    ensures
        r@.len() == worker_count,
        forall|i: int|
            0 <= i < r@.len() ==> (#[trigger] r@[i]).0 as nat == chunk_range(
                worker_count as nat,
                total_length as nat,
                i as nat,
            ).0 && r@[i].1 as nat == chunk_range(worker_count as nat, total_length as nat, i as nat).1,
        r@[0].0 == 0,
        r@[worker_count - 1].1 == total_length,
        forall|i: int| 0 <= i < r@.len() ==> (#[trigger] r@[i]).0 <= r@[i].1,
        forall|i: int| 0 <= i < r@.len() - 1 ==> (#[trigger] r@[i]).1 == r@[i + 1].0,
{
    let workers = worker_count as u64;
    let size = total_length / workers;
    let mut r: Vec<(u64, u64)> = Vec::new();
    let mut i: u64 = 0;
    proof {
        assert(size * workers <= total_length) by (nonlinear_arith)
            requires
                size == total_length / workers,
                workers >= 1,
        ;
    }
    while i < workers
        invariant
            0 <= i <= workers,
            workers == worker_count,
            size == total_length as nat / workers as nat,
            size * workers <= total_length,
            r@.len() == i,
            forall|k: int|
                0 <= k < i ==> (#[trigger] r@[k]).0 as nat == chunk_range(
                    worker_count as nat,
                    total_length as nat,
                    k as nat,
                ).0 && r@[k].1 as nat == chunk_range(
                    worker_count as nat,
                    total_length as nat,
                    k as nat,
                ).1,
        decreases workers - i,
    {
        proof {
            assert(i * size <= size * workers && (i + 1) * size <= size * workers) by (nonlinear_arith)
                requires
                    i < workers,
                    size >= 0,
            ;
        }
        let start = i * size;
        let end = if i + 1 == workers {
            total_length
        } else {
            (i + 1) * size
        };
        r.push((start, end));
        i = i + 1;
    }
    assert forall|k: int| 0 <= k < r@.len() implies (#[trigger] r@[k]).0 <= r@[k].1 by {
        assert(k * size <= (k + 1) * size) by (nonlinear_arith)
            requires
                size >= 0,
                k >= 0,
        ;
        assert((k + 1) * size <= size * workers) by (nonlinear_arith)
            requires
                k + 1 <= workers,
                size >= 0,
        ;
    }
    r
}

/// How many bytes at the front of a range belong to a record that began
/// in an earlier range: up to and including the first newline, or all of
/// them if there is none. None for the range that starts the input.
pub open spec fn lead_len(c: Seq<u8>, at_start: bool) -> nat {
    if at_start {
        0
    } else if find_from(c, NEWLINE, 0) < c.len() {
        (find_from(c, NEWLINE, 0) + 1) as nat
    } else {
        c.len()
    }
}

/// The bytes of a range after its leading fragment.
pub open spec fn chunk_body(c: Seq<u8>, at_start: bool) -> Seq<u8> {
    c.skip(lead_len(c, at_start) as int)
}

/// The bytes of a range that it cannot parse alone: the leading fragment,
/// then what follows its last complete record.
pub open spec fn chunk_leftover(c: Seq<u8>, at_start: bool) -> Seq<u8> {
    c.take(lead_len(c, at_start) as int) + pending(chunk_body(c, at_start))
}

/// The records that a range parses alone.
pub open spec fn chunk_records(c: Seq<u8>, at_start: bool) -> Seq<(Seq<u8>, Seq<u8>)> {
    split_records(chunk_body(c, at_start))
}

/// The table of a range, and the bytes it hands on.
pub struct ChunkOutcome {
    pub table: StationMap,
    pub leftover: Vec<u8>,
}

impl ChunkOutcome {
    pub open spec fn wf(&self) -> bool {
        self.table.wf()
    }
}

/// Parses one range from bytes handed to it piece by piece, through a
/// buffer that keeps an incomplete record until more bytes come.
pub struct ChunkParser {
    table: StationMap,
    buf: Buffer,
    leftover: Vec<u8>,
    at_start: bool,
    lead_done: bool,
    seen: Ghost<Seq<u8>>,
}

impl ChunkParser {
    /// All bytes handed over so far.
    pub closed spec fn seen(&self) -> Seq<u8> {
        self.seen@
    }

    pub closed spec fn at_start(&self) -> bool {
        self.at_start
    }

    /// Bytes fed and not yet parsed or set aside.
    pub closed spec fn unread(&self) -> Seq<u8> {
        self.buf.view()
    }

    /// The size of the buffer.
    pub closed spec fn capacity(&self) -> nat {
        self.buf.capacity()
    }

    /// How many bytes the next `feed` may take.
    pub closed spec fn room(&self) -> nat {
        self.buf.spare()
    }

    pub closed spec fn wf(&self) -> bool {
        let s = self.seen@;
        let body = chunk_body(s, self.at_start);
        &&& self.table.wf()
        &&& self.buf.wf()
        &&& (self.at_start ==> self.lead_done)
        &&& (!self.lead_done ==> {
            &&& find_from(s, NEWLINE, 0) == s.len()
            &&& self.buf.view() == s
            &&& self.leftover@ == Seq::<u8>::empty()
            &&& self.table@ == Map::<Seq<u8>, Summary>::empty()
        })
        &&& (self.lead_done ==> {
            &&& (!self.at_start ==> find_from(s, NEWLINE, 0) < s.len())
            &&& self.leftover@ == s.take(lead_len(s, self.at_start) as int)
            &&& self.buf.view() == pending(body)
            &&& first_failure(Map::empty(), split_records(body)) is None
            &&& self.table@ == table_of(observations(split_records(body)))
        })
    }

    /// A parser for a range; `at_start` says that the range begins the
    /// input, so that it has no leading fragment.
    pub fn new(at_start: bool, capacity: usize) -> (r: ChunkParser)
        ensures
            r.wf(),
            r.seen() == Seq::<u8>::empty(),
            r.at_start() == at_start,
            r.room() == capacity,
            r.capacity() == capacity,
            r.unread() == Seq::<u8>::empty(),
    {
        let r = ChunkParser {
            table: StationMap::new(),
            buf: Buffer::with_capacity(capacity),
            leftover: Vec::new(),
            at_start,
            lead_done: at_start,
            seen: Ghost(Seq::empty()),
        };
        proof {
            let s = Seq::<u8>::empty();
            assert(chunk_body(s, at_start) =~= s);
            assert(split_records(s) =~= Seq::empty()) by {
                lemma_find_bounds(s, 59, 0);
            }
            assert(consumed_len(s) == 0) by {
                lemma_consumed_bound(s);
            }
            assert(pending(s) =~= s);
            assert(s.take(0) =~= s);
            assert(observations(Seq::empty()) =~= Seq::empty());
        }
        r
    }

    /// Moves the unread bytes to the front of the buffer and returns the
    /// room behind them. Fails where there is none: the buffer then holds
    /// a record longer than its capacity.
    pub fn make_room(&mut self) -> (r: Result<usize, Error>)
        requires
            old(self).wf(),
        ensures
            final(self).wf(),
            final(self).seen() == old(self).seen(),
            final(self).at_start() == old(self).at_start(),
            final(self).unread() == old(self).unread(),
            final(self).capacity() == old(self).capacity(),
            final(self).room() == final(self).capacity() - final(self).unread().len(),
            r is Err <==> old(self).unread().len() == old(self).capacity(),
            match r {
                Ok(n) => n == final(self).room() && n > 0,
                Err(e) => e == Error::LineTooLong,
            },
    {
        self.buf.backshift();
        let n = self.buf.spare_capacity();
        if n == 0 {
            Err(Error::LineTooLong)
        } else {
            Ok(n)
        }
    }

    /// Takes the next bytes of the range and parses every record that is
    /// complete. Fails where a record of the range's body cannot be folded
    /// (see `first_failure`).
    pub fn feed(&mut self, data: &[u8]) -> (r: Result<(), Error>)
        requires
            old(self).wf(),
            data@.len() <= old(self).room(),
        ensures
            final(self).seen() == old(self).seen() + data@,
            final(self).at_start() == old(self).at_start(),
            final(self).capacity() == old(self).capacity(),
            match r {
                Ok(_) => final(self).wf(),
                Err(e) => first_failure(
                    Map::empty(),
                    split_records(chunk_body(final(self).seen(), final(self).at_start())),
                ) == Some(e),
            },
    {
        let ghost old_seen = self.seen@;
        let ghost new_seen = old_seen + data@;
        let ghost at_start = self.at_start;
        self.buf.read_more(data);
        assert(data@.take(data@.len() as int) =~= data@);
        self.seen = Ghost(new_seen);
        // p: the body bytes already parsed; d: the body bytes not yet parsed.
        let ghost mut p: Seq<u8> = Seq::empty();
        let ghost mut d: Seq<u8> = Seq::empty();
        if !self.lead_done {
            let k = find_byte(self.buf.buffer(), NEWLINE, 0);
            if k == self.buf.buffer().len() {
                proof {
                    lemma_find_past(old_seen, data@, NEWLINE, 0);
                    lemma_find_bounds(data@, NEWLINE, 0);
                }
                return Ok(());
            }
            let mut i: usize = 0;
            while i <= k
                invariant
                    0 <= i <= k + 1,
                    k < self.buf.view().len(),
                    self.buf.view() == new_seen,
                    self.leftover@ == new_seen.take(i as int),
                    self.buf.wf(),
                    self.table.wf(),
                    self.table@ == Map::<Seq<u8>, Summary>::empty(),
                    self.at_start == at_start,
                    !at_start,
                    self.seen@ == new_seen,
                    self.buf.capacity() == old(self).buf.capacity(),
                decreases k + 1 - i,
            {
                let b = self.buf.buffer()[i];
                self.leftover.push(b);
                i = i + 1;
                assert(self.leftover@ =~= new_seen.take(i as int));
            }
            self.buf.consume(k + 1);
            self.lead_done = true;
            proof {
                lemma_find_bounds(new_seen, NEWLINE, 0);
                d = chunk_body(new_seen, at_start);
                assert(self.buf.view() =~= d);
                assert(split_records(p) =~= Seq::empty()) by {
                    lemma_find_bounds(p, 59, 0);
                }
                assert(consumed_len(p) == 0) by {
                    lemma_consumed_bound(p);
                }
                assert(pending(p) + d =~= d);
                assert(p + d =~= d);
                assert(observations(Seq::empty()) =~= Seq::empty());
            }
        } else {
            proof {
                lemma_find_bounds(old_seen, NEWLINE, 0);
                if !at_start {
                    lemma_find_extend(old_seen, data@, NEWLINE, 0);
                }
                p = chunk_body(old_seen, at_start);
                d = data@;
                assert(chunk_body(new_seen, at_start) =~= p + d);
                assert(self.buf.view() == pending(p) + d);
                assert(new_seen.take(lead_len(new_seen, at_start) as int) =~= old_seen.take(
                    lead_len(old_seen, at_start) as int,
                ));
            }
        }
        let ghost body = chunk_body(new_seen, at_start);
        assert(body == p + d);
        proof {
            lemma_fold_records_extend(Map::empty(), p, d);
        }
        let parsed = parse_records(&mut self.table, self.buf.buffer());
        match parsed {
            Ok(c) => {
                self.buf.consume(c);
                proof {
                    lemma_split_pending(p, d);
                    lemma_consumed_bound(pending(p) + d);
                    assert(self.buf.view() =~= pending(body));
                }
                Ok(())
            },
            Err(e) => Err(e),
        }
    }

    /// The range's table and its leftover bytes, once every byte of the
    /// range has been fed.
    pub fn finish(self) -> (r: ChunkOutcome)
        requires
            self.wf(),
        ensures
            r.wf(),
            r.leftover@ == chunk_leftover(self.seen(), self.at_start()),
            r.table@ == table_of(observations(chunk_records(self.seen(), self.at_start()))),
            first_failure(Map::empty(), chunk_records(self.seen(), self.at_start())) is None,
    {
        let ChunkParser { table, buf, mut leftover, at_start, lead_done, seen } = self;
        let rest = buf.buffer();
        let ghost start = leftover@;
        let mut i: usize = 0;
        while i < rest.len()
            invariant
                0 <= i <= rest@.len(),
                leftover@ == start + rest@.take(i as int),
            decreases rest@.len() - i,
        {
            leftover.push(rest[i]);
            i = i + 1;
            assert(leftover@ =~= start + rest@.take(i as int));
        }
        proof {
            let s = seen@;
            assert(rest@.take(rest@.len() as int) =~= rest@);
            if !lead_done {
                let body = chunk_body(s, at_start);
                assert(body =~= Seq::<u8>::empty());
                assert(split_records(body) =~= Seq::empty()) by {
                    lemma_find_bounds(body, 59, 0);
                }
                assert(consumed_len(body) == 0) by {
                    lemma_consumed_bound(body);
                }
                assert(pending(body) =~= body);
                assert(s.take(s.len() as int) =~= s);
                assert(leftover@ =~= chunk_leftover(s, at_start));
                assert(observations(Seq::empty()) =~= Seq::empty());
            } else {
                assert(leftover@ =~= chunk_leftover(s, at_start));
            }
        }
        ChunkOutcome { table, leftover }
    }
}

/// Takes the outcome of the range that follows `into`'s ranges: tables
/// are merged and leftover bytes appended. Fails where a combined count
/// would not fit in a `u64`.
pub fn merge_outcomes(into: &mut ChunkOutcome, next: ChunkOutcome) -> (r: Result<(), Error>)
    requires
        old(into).wf(),
        next.wf(),
    ensures
        r is Err <==> !merge_fits(old(into).table@, next.table@),
        r matches Err(e) ==> e == Error::Overflow,
        r is Ok ==> final(into).wf() && final(into).table@ == merge_tables(
            old(into).table@,
            next.table@,
        ) && final(into).leftover@ == old(into).leftover@ + next.leftover@,
{
    let ChunkOutcome { table, mut leftover } = next;
    let merged = into.table.merge(table);
    match merged {
        Ok(()) => {
            into.leftover.append(&mut leftover);
            Ok(())
        },
        Err(e) => Err(e),
    }
}

/// Parses the joined leftover bytes into the joined tables. Fails where a
/// record cannot be folded, or with `Incomplete` where bytes are left
/// after the last complete record.
pub fn reconcile(outcome: ChunkOutcome) -> (r: Result<StationMap, Error>)
    requires
        outcome.wf(),
    ensures
        match r {
            Ok(t) => {
                &&& t.wf()
                &&& first_failure(outcome.table@, split_records(outcome.leftover@)) is None
                &&& consumed_len(outcome.leftover@) == outcome.leftover@.len()
                &&& t@ == fold_values(
                    outcome.table@,
                    observations(split_records(outcome.leftover@)),
                )
            },
            Err(Error::Incomplete) => {
                &&& first_failure(outcome.table@, split_records(outcome.leftover@)) is None
                &&& consumed_len(outcome.leftover@) != outcome.leftover@.len()
            },
            Err(e) => first_failure(outcome.table@, split_records(outcome.leftover@)) == Some(e),
        },
{
    let ChunkOutcome { mut table, leftover } = outcome;
    let parsed = parse_records(&mut table, leftover.as_slice());
    match parsed {
        Ok(c) => {
            if c == leftover.len() {
                Ok(table)
            } else {
                Err(Error::Incomplete)
            }
        },
        Err(e) => {
            assert(e != Error::Incomplete) by {
                lemma_failure_kinds(outcome.table@, split_records(outcome.leftover@));
            }
            Err(e)
        },
    }
}

proof fn lemma_failure_kinds(t: Map<Seq<u8>, Summary>, recs: Seq<(Seq<u8>, Seq<u8>)>)
    ensures
        first_failure(t, recs) != Some(Error::Incomplete),
    decreases recs.len(),
{
    if recs.len() > 0 {
        lemma_failure_kinds(
            crate::stats::add_value(t, recs[0].0, crate::measurement::tenths_of(recs[0].1)),
            recs.drop_first(),
        );
    }
}

} // verus!
