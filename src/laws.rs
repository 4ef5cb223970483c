//! Splitting the input into ranges does not change the result.

use vstd::prelude::*;
use crate::chunk::{chunk_body, chunk_leftover, chunk_records, lead_len};
use crate::records::{consumed_len, find_from, observations, split_records, NEWLINE, SEMICOLON};
use crate::split_lemmas::{
    lemma_consumed_bound, lemma_find_bounds, lemma_find_extend, lemma_find_past,
    lemma_find_prefix, lemma_observations_concat, lemma_pending_has_no_record,
    lemma_split_extend, lemma_split_pending, pending,
};
use crate::stats::{
    fold_values, lemma_fold_is_merge, lemma_merge_associative, lemma_merge_commutative,
    lemma_merge_empty, lemma_table_of_concat, merge_tables, table_of, Summary,
};

verus! {

/// Input made of lines `key;value\n` whose key holds neither `;` nor a
/// newline.
pub open spec fn well_formed(s: Seq<u8>) -> bool
    decreases s.len(),
{
    if s.len() == 0 {
        true
    } else {
        let i = find_from(s, SEMICOLON, 0);
        let j = find_from(s, NEWLINE, i + 1);
        &&& 0 <= i < j < s.len()
        &&& find_from(s, NEWLINE, 0) == j
        &&& well_formed(s.subrange(j + 1, s.len() as int))
    }
}

/// Cut points `0 = cuts[0] <= cuts[1] <= ... <= cuts[last] = len`.
pub open spec fn is_partition(cuts: Seq<int>, len: int) -> bool {
    &&& cuts.len() >= 2
    &&& cuts[0] == 0
    &&& cuts.last() == len
    &&& forall|k: int| 0 <= k < cuts.len() - 1 ==> #[trigger] cuts[k] <= cuts[k + 1]
}

/// Range `k` of the input.
pub open spec fn piece(f: Seq<u8>, cuts: Seq<int>, k: int) -> Seq<u8> {
    f.subrange(cuts[k], cuts[k + 1])
}

/// The table of the records of some bytes.
pub open spec fn records_table(s: Seq<u8>) -> Map<Seq<u8>, Summary> {
    table_of(observations(split_records(s)))
}

/// The tables of the first `k` ranges, merged.
pub open spec fn pieces_table(f: Seq<u8>, cuts: Seq<int>, k: nat) -> Map<Seq<u8>, Summary>
    decreases k,
{
    if k == 0 {
        Map::empty()
    } else {
        merge_tables(
            pieces_table(f, cuts, (k - 1) as nat),
            table_of(
                observations(chunk_records(piece(f, cuts, k - 1), cuts[k - 1] == 0)),
            ),
        )
    }
}

/// The leftover bytes of the first `k` ranges, in range order.
pub open spec fn pieces_leftover(f: Seq<u8>, cuts: Seq<int>, k: nat) -> Seq<u8>
    decreases k,
{
    if k == 0 {
        Seq::empty()
    } else {
        pieces_leftover(f, cuts, (k - 1) as nat) + chunk_leftover(
            piece(f, cuts, k - 1),
            cuts[k - 1] == 0,
        )
    }
}

/// The table that parsing the ranges, merging them and parsing the joined
/// leftover bytes gives.
pub open spec fn chunked_table(f: Seq<u8>, cuts: Seq<int>) -> Map<Seq<u8>, Summary> {
    let n = (cuts.len() - 1) as nat;
    fold_values(pieces_table(f, cuts, n), observations(split_records(pieces_leftover(f, cuts, n))))
}

proof fn lemma_records_table_concat(a: Seq<u8>, b: Seq<u8>)
    ensures
        records_table(a + b) == merge_tables(
            records_table(a),
            records_table(pending(a) + b),
        ),
{
    lemma_split_extend(a, b);
    lemma_observations_concat(split_records(a), split_records(pending(a) + b));
    lemma_table_of_concat(
        observations(split_records(a)),
        observations(split_records(pending(a) + b)),
    );
}

proof fn lemma_records_table_pending(s: Seq<u8>)
    ensures
        records_table(pending(s)) == Map::<Seq<u8>, Summary>::empty(),
{
    lemma_pending_has_no_record(s);
    assert(observations(split_records(pending(s))) =~= Seq::empty());
}

/// A well-formed input stays well formed after the complete records at
/// the front of a prefix are taken off.
proof fn lemma_well_formed_pending(p: Seq<u8>, q: Seq<u8>)
    requires
        well_formed(p + q),
    ensures
        well_formed(pending(p) + q),
    decreases p.len(),
{
    let i = find_from(p, SEMICOLON, 0);
    let j = find_from(p, NEWLINE, i + 1);
    lemma_find_bounds(p, SEMICOLON, 0);
    if i < p.len() {
        lemma_find_bounds(p, NEWLINE, i + 1);
    }
    if 0 <= i < j < p.len() {
        let w = p + q;
        lemma_find_extend(p, q, SEMICOLON, 0);
        lemma_find_extend(p, q, NEWLINE, i + 1);
        let p2 = p.subrange(j + 1, p.len() as int);
        assert(w.subrange(j + 1, w.len() as int) =~= p2 + q);
        lemma_consumed_bound(p2);
        assert(pending(p) =~= pending(p2));
        lemma_well_formed_pending(p2, q);
    } else {
        assert(pending(p) =~= p);
    }
}

/// Every byte of a well-formed input belongs to a complete record.
proof fn lemma_well_formed_consumed(s: Seq<u8>)
    requires
        well_formed(s),
    ensures
        consumed_len(s) == s.len(),
    decreases s.len(),
{
    if s.len() > 0 {
        let i = find_from(s, SEMICOLON, 0);
        let j = find_from(s, NEWLINE, i + 1);
        lemma_well_formed_consumed(s.subrange(j + 1, s.len() as int));
    }
}

/// Where the bytes pending before a range are followed by the range up to
/// its first newline, they make up exactly one complete record.
proof fn lemma_line_completed(u: Seq<u8>, c: Seq<u8>, r: Seq<u8>)
    requires
        split_records(u) == Seq::<(Seq<u8>, Seq<u8>)>::empty(),
        well_formed(u + c + r),
        find_from(c, NEWLINE, 0) < c.len(),
    ensures
        consumed_len(u + c.take(find_from(c, NEWLINE, 0) + 1)) == u.len() + find_from(
            c,
            NEWLINE,
            0,
        ) + 1,
{
    let q = find_from(c, NEWLINE, 0);
    let cr = c + r;
    let w = u + cr;
    assert(w =~= u + c + r);
    let i = find_from(w, SEMICOLON, 0);
    let j = find_from(w, NEWLINE, i + 1);
    lemma_find_bounds(w, SEMICOLON, 0);
    lemma_find_bounds(w, NEWLINE, 0);
    lemma_find_bounds(c, NEWLINE, 0);
    assert(w[u.len() + q] == NEWLINE);
    assert(w.len() > 0);
    assert(0 <= i < j < w.len() && find_from(w, NEWLINE, 0) == j);
    // No newline in `u`: it would close a record inside `u`.
    if find_from(u, NEWLINE, 0) < u.len() {
        lemma_find_extend(u, cr, NEWLINE, 0);
        lemma_find_prefix(u, cr, SEMICOLON, 0);
        lemma_find_prefix(u, cr, NEWLINE, i + 1);
        assert(false);
    }
    lemma_find_bounds(u, NEWLINE, 0);
    lemma_find_past(u, cr, NEWLINE, 0);
    lemma_find_extend(c, r, NEWLINE, 0);
    assert(j == u.len() + q);
    let s = w.take(j + 1);
    let rest = w.skip(j + 1);
    assert(s + rest =~= w);
    lemma_find_prefix(s, rest, SEMICOLON, 0);
    lemma_find_prefix(s, rest, NEWLINE, i + 1);
    assert(s =~= u + c.take(q + 1));
    let empty = s.subrange(j + 1, s.len() as int);
    assert(empty.len() == 0);
    lemma_find_bounds(empty, SEMICOLON, 0);
    assert(consumed_len(empty) == 0);
}

proof fn lemma_empty_table(s: Seq<u8>)
    requires
        s.len() == 0,
    ensures
        records_table(s) == Map::<Seq<u8>, Summary>::empty(),
        pending(s) == s,
{
    lemma_find_bounds(s, SEMICOLON, 0);
    assert(split_records(s) =~= Seq::empty());
    assert(observations(Seq::<(Seq<u8>, Seq<u8>)>::empty()) =~= Seq::empty());
    lemma_consumed_bound(s);
    assert(pending(s) =~= s);
}

/// The step for a range that begins the input.
proof fn lemma_step_at_start(a: Map<Seq<u8>, Summary>, l: Seq<u8>, c: Seq<u8>)
    requires
        merge_tables(a, records_table(l)) == Map::<Seq<u8>, Summary>::empty(),
        pending(l) == Seq::<u8>::empty(),
    ensures
        merge_tables(merge_tables(a, records_table(chunk_body(c, true))), records_table(l + chunk_leftover(c, true)))
            == records_table(c),
        pending(l + chunk_leftover(c, true)) == pending(c),
{
    let body = chunk_body(c, true);
    let trail = pending(body);
    assert(body =~= c);
    assert(c.take(0) =~= Seq::<u8>::empty());
    assert(chunk_leftover(c, true) =~= trail);
    lemma_records_table_concat(l, trail);
    lemma_split_pending(l, trail);
    assert(pending(l) + trail =~= trail);
    lemma_records_table_pending(c);
    lemma_pending_has_no_record(c);
    lemma_merge_empty(records_table(l));
    lemma_merge_empty(records_table(c));
    lemma_merge_associative(a, records_table(c), records_table(l));
    lemma_merge_commutative(records_table(c), records_table(l));
    lemma_merge_associative(a, records_table(l), records_table(c));
}

/// The step for a later range that holds no newline.
proof fn lemma_step_no_newline(a: Map<Seq<u8>, Summary>, l: Seq<u8>, pk: Seq<u8>, c: Seq<u8>)
    requires
        merge_tables(a, records_table(l)) == records_table(pk),
        pending(l) == pending(pk),
        find_from(c, NEWLINE, 0) == c.len(),
    ensures
        merge_tables(merge_tables(a, records_table(chunk_body(c, false))), records_table(l + chunk_leftover(c, false)))
            == records_table(pk + c),
        pending(l + chunk_leftover(c, false)) == pending(pk + c),
{
    let body = chunk_body(c, false);
    assert(body =~= Seq::<u8>::empty());
    lemma_empty_table(body);
    assert(c.take(c.len() as int) =~= c);
    assert(chunk_leftover(c, false) =~= c);
    lemma_records_table_concat(l, c);
    lemma_records_table_concat(pk, c);
    lemma_split_pending(l, c);
    lemma_split_pending(pk, c);
    lemma_merge_empty(a);
    lemma_merge_associative(a, records_table(l), records_table(pending(l) + c));
}

/// The step for a later range with a newline: the pending bytes and the
/// range's leading fragment make one record.
proof fn lemma_step_newline(
    a: Map<Seq<u8>, Summary>,
    l: Seq<u8>,
    pk: Seq<u8>,
    c: Seq<u8>,
    rr: Seq<u8>,
)
    requires
        merge_tables(a, records_table(l)) == records_table(pk),
        pending(l) == pending(pk),
        find_from(c, NEWLINE, 0) < c.len(),
        well_formed(pk + c + rr),
    ensures
        merge_tables(merge_tables(a, records_table(chunk_body(c, false))), records_table(l + chunk_leftover(c, false)))
            == records_table(pk + c),
        pending(l + chunk_leftover(c, false)) == pending(pk + c),
{
    let q = find_from(c, NEWLINE, 0);
    let u = pending(l);
    let lead = c.take(q + 1);
    let body = chunk_body(c, false);
    let trail = pending(body);
    lemma_find_bounds(c, NEWLINE, 0);
    assert(lead_len(c, false) == q + 1);
    assert(lead + body =~= c);
    assert(chunk_leftover(c, false) == lead + trail);
    assert(pk + (c + rr) =~= pk + c + rr);
    lemma_well_formed_pending(pk, c + rr);
    assert(pending(pk) + (c + rr) =~= u + c + rr);
    lemma_pending_has_no_record(l);
    lemma_line_completed(u, c, rr);
    let line = u + lead;
    lemma_consumed_bound(line);
    assert(pending(line) =~= Seq::<u8>::empty());
    lemma_records_table_concat(l, lead + trail);
    lemma_records_table_concat(pk, c);
    lemma_split_pending(l, lead + trail);
    lemma_split_pending(pk, c);
    assert(u + (lead + trail) =~= line + trail);
    assert(u + c =~= line + body);
    lemma_records_table_concat(line, trail);
    lemma_records_table_concat(line, body);
    lemma_split_pending(line, trail);
    lemma_split_pending(line, body);
    assert(pending(line) + trail =~= trail);
    assert(pending(line) + body =~= body);
    lemma_records_table_pending(body);
    lemma_pending_has_no_record(body);
    let tb = records_table(body);
    let tl = records_table(l);
    let tline = records_table(line);
    lemma_merge_empty(tline);
    lemma_merge_associative(a, tb, merge_tables(tl, tline));
    lemma_merge_commutative(tb, merge_tables(tl, tline));
    lemma_merge_associative(a, merge_tables(tl, tline), tb);
    lemma_merge_associative(a, tl, tline);
}

/// What holds after the first `k` ranges: their tables merged with the
/// table of their joined leftover bytes give the table of the input up to
/// there, and the same bytes are pending.
proof fn lemma_pieces(f: Seq<u8>, cuts: Seq<int>, k: nat)
    requires
        well_formed(f),
        is_partition(cuts, f.len() as int),
        k < cuts.len(),
    ensures
        merge_tables(pieces_table(f, cuts, k), records_table(pieces_leftover(f, cuts, k)))
            == records_table(f.take(cuts[k as int])),
        pending(pieces_leftover(f, cuts, k)) == pending(f.take(cuts[k as int])),
    decreases k,
{
    if k == 0 {
        let e = Seq::<u8>::empty();
        assert(f.take(0) =~= e);
        lemma_empty_table(e);
        lemma_merge_empty(Map::empty());
    } else {
        let k1 = (k - 1) as nat;
        lemma_pieces(f, cuts, k1);
        lemma_cuts_ordered(cuts, 0, k1 as int);
        lemma_cuts_ordered(cuts, k as int, cuts.len() - 1);
        assert(cuts[k1 as int] <= cuts[k1 as int + 1]);
        let c = piece(f, cuts, k1 as int);
        let at_start = cuts[k1 as int] == 0;
        let pk = f.take(cuts[k1 as int]);
        assert(f.take(cuts[k as int]) =~= pk + c);
        let l = pieces_leftover(f, cuts, k1);
        let a = pieces_table(f, cuts, k1);
        assert(pieces_table(f, cuts, k) == merge_tables(a, records_table(chunk_body(c, at_start))));
        if at_start {
            assert(pk =~= Seq::<u8>::empty());
            lemma_empty_table(pk);
            assert(pk + c =~= c);
            lemma_step_at_start(a, l, c);
        } else if find_from(c, NEWLINE, 0) < c.len() {
            let rr = f.skip(cuts[k as int]);
            assert(pk + c + rr =~= f);
            lemma_step_newline(a, l, pk, c, rr);
        } else {
            lemma_find_bounds(c, NEWLINE, 0);
            lemma_step_no_newline(a, l, pk, c);
        }
    }
}

proof fn lemma_cuts_ordered(cuts: Seq<int>, a: int, b: int)
    requires
        0 <= a <= b < cuts.len(),
        forall|k: int| 0 <= k < cuts.len() - 1 ==> #[trigger] cuts[k] <= cuts[k + 1],
    ensures
        cuts[a] <= cuts[b],
    decreases b - a,
{
    if a < b {
        lemma_cuts_ordered(cuts, a, b - 1);
        assert(cuts[b - 1] <= cuts[b - 1 + 1]);
    }
}

/// For a well-formed input and any division of it into consecutive
/// ranges, parsing the ranges apart, merging their tables and parsing
/// their joined leftover bytes gives the table of the whole input.
pub proof fn lemma_chunk_count_invariance(f: Seq<u8>, cuts: Seq<int>)
    requires
        well_formed(f),
        is_partition(cuts, f.len() as int),
    ensures
        chunked_table(f, cuts) == records_table(f),
{
    let n = (cuts.len() - 1) as nat;
    lemma_pieces(f, cuts, n);
    assert(f.take(f.len() as int) =~= f);
    lemma_fold_is_merge(
        pieces_table(f, cuts, n),
        observations(split_records(pieces_leftover(f, cuts, n))),
    );
}

/// For a well-formed input and any division of it into consecutive
/// ranges, the ranges' leftover bytes joined in range order are complete
/// records only: parsing them consumes every byte.
pub proof fn lemma_leftovers_are_whole_records(f: Seq<u8>, cuts: Seq<int>)
    requires
        well_formed(f),
        is_partition(cuts, f.len() as int),
    ensures
        consumed_len(pieces_leftover(f, cuts, (cuts.len() - 1) as nat)) == pieces_leftover(
            f,
            cuts,
            (cuts.len() - 1) as nat,
        ).len(),
{
    let n = (cuts.len() - 1) as nat;
    let g = pieces_leftover(f, cuts, n);
    lemma_pieces(f, cuts, n);
    assert(f.take(f.len() as int) =~= f);
    lemma_well_formed_consumed(f);
    assert(pending(f) =~= Seq::<u8>::empty());
    lemma_consumed_bound(g);
}

} // verus!
