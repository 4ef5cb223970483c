//! The summary line: keys in ascending byte order, each with minimum,
//! mean and maximum to one decimal.

use vstd::prelude::*;
use crate::measurement::{push_tenths, tenths_text};
use crate::stats::{rounded_mean, Stats, Summary};
use crate::table::StationMap;

verus! {

/// `a` sorts before `b`, byte by byte, a proper prefix first.
pub open spec fn lex_lt(a: Seq<u8>, b: Seq<u8>) -> bool
    decreases a.len(),
{
    if a.len() == 0 {
        b.len() > 0
    } else if b.len() == 0 {
        false
    } else if a[0] != b[0] {
        a[0] < b[0]
    } else {
        lex_lt(a.drop_first(), b.drop_first())
    }
}

/// `key=min/mean/max`.
pub open spec fn entry_text(k: Seq<u8>, s: Summary) -> Seq<u8> {
    k + seq![61u8] + tenths_text(s.min) + seq![47u8] + tenths_text(rounded_mean(s.sum, s.count))
        + seq![47u8] + tenths_text(s.max)
}

/// The entries' texts joined by `, `.
pub open spec fn entries_text(e: Seq<(Seq<u8>, Summary)>) -> Seq<u8>
    decreases e.len(),
{
    if e.len() == 0 {
        Seq::empty()
    } else if e.len() == 1 {
        entry_text(e[0].0, e[0].1)
    } else {
        entries_text(e.drop_last()) + seq![44u8, 32u8] + entry_text(e.last().0, e.last().1)
    }
}

/// `{` entries `}`.
pub open spec fn report_text(e: Seq<(Seq<u8>, Summary)>) -> Seq<u8> {
    seq![123u8] + entries_text(e) + seq![125u8]
}

/// `e` lists the entries of `m`, each once, keys in ascending order.
pub open spec fn sorted_listing(e: Seq<(Seq<u8>, Summary)>, m: Map<Seq<u8>, Summary>) -> bool {
    &&& forall|i: int, j: int| 0 <= i < j < e.len() ==> lex_lt(#[trigger] e[i].0, #[trigger] e[j].0)
    &&& forall|i: int| 0 <= i < e.len() ==> m.contains_key(#[trigger] e[i].0) && m[e[i].0] == e[i].1
    &&& forall|k: Seq<u8>| #[trigger] m.contains_key(k) ==> exists|i: int| 0 <= i < e.len() && #[trigger] e[i].0 == k
}

pub open spec fn summaries(v: Seq<(Vec<u8>, Stats)>) -> Seq<(Seq<u8>, Summary)> {
    v.map_values(|p: (Vec<u8>, Stats)| (p.0@, p.1@))
}

/// Relies on `slice::sort_unstable_by` with `Ord` of `Vec<u8>`, which is
/// lexicographic: a permutation of the entries, whose keys (distinct
/// here) then ascend.
#[verifier::external_body]
fn sort_by_key(v: &mut Vec<(Vec<u8>, Stats)>)
    requires
        forall|i: int, j: int|
            0 <= i < j < old(v)@.len() ==> #[trigger] old(v)@[i].0@ != #[trigger] old(v)@[j].0@,
    ensures
        final(v)@.len() == old(v)@.len(),
        forall|i: int| 0 <= i < final(v)@.len() ==> old(v)@.contains(#[trigger] final(v)@[i]),
        forall|i: int| 0 <= i < old(v)@.len() ==> final(v)@.contains(#[trigger] old(v)@[i]),
        forall|i: int, j: int|
            0 <= i < j < final(v)@.len() ==> lex_lt(#[trigger] final(v)@[i].0@, #[trigger] final(v)@[j].0@),
{
    v.sort_unstable_by(|a, b| a.0.cmp(&b.0));
}

/// Appends `key=min/mean/max`.
fn push_entry(out: &mut Vec<u8>, key: &Vec<u8>, s: &Stats)
    requires
        s.wf(),
    ensures
        final(out)@ == old(out)@ + entry_text(key@, s@),
{
    let ghost start = out@;
    let mut i: usize = 0;
    while i < key.len()
        invariant
            0 <= i <= key@.len(),
            out@ == start + key@.take(i as int),
        decreases key@.len() - i,
    {
        out.push(key[i]);
        i = i + 1;
        assert(out@ =~= start + key@.take(i as int));
    }
    assert(key@.take(key@.len() as int) =~= key@);
    out.push(61u8);
    push_tenths(out, s.min);
    out.push(47u8);
    push_tenths(out, s.mean());
    out.push(47u8);
    push_tenths(out, s.max);
    assert(out@ =~= start + entry_text(key@, s@));
}

/// The summary line of a table.
pub fn format_report(table: StationMap) -> (r: Vec<u8>)
    requires
        table.wf(),
    ensures
        exists|e: Seq<(Seq<u8>, Summary)>| sorted_listing(e, table@) && r@ == report_text(e),
{
    let ghost m = table@;
    let mut entries = table.into_entries();
    let ghost before = entries@;
    sort_by_key(&mut entries);
    proof {
        assert forall|i: int| 0 <= i < entries@.len() implies (#[trigger] entries@[i]).1.wf()
            && m.contains_key(entries@[i].0@) && m[entries@[i].0@] == entries@[i].1@ by {
            assert(before.contains(entries@[i]));
            let j = choose|j: int| 0 <= j < before.len() && before[j] == entries@[i];
            assert(m.contains_key(before[j].0@));
        }
        let e = summaries(entries@);
        assert forall|k: Seq<u8>| #[trigger] m.contains_key(k) implies exists|i: int|
            0 <= i < e.len() && #[trigger] e[i].0 == k by {
            let a = choose|a: int| 0 <= a < before.len() && #[trigger] before[a].0@ == k;
            assert(entries@.contains(before[a]));
            let i = choose|i: int| 0 <= i < entries@.len() && entries@[i] == before[a];
            assert(e[i].0 == k);
        }
        assert(sorted_listing(e, m));
    }
    let mut out: Vec<u8> = Vec::new();
    out.push(123u8);
    let mut i: usize = 0;
    while i < entries.len()
        invariant
            0 <= i <= entries@.len(),
            forall|j: int| 0 <= j < entries@.len() ==> (#[trigger] entries@[j]).1.wf(),
            out@ == seq![123u8] + entries_text(summaries(entries@).take(i as int)),
        decreases entries@.len() - i,
    {
        if i > 0 {
            out.push(44u8);
            out.push(32u8);
        }
        push_entry(&mut out, &entries[i].0, &entries[i].1);
        proof {
            let e = summaries(entries@);
            let t = e.take(i + 1);
            assert(t.drop_last() =~= e.take(i as int));
            assert(out@ =~= seq![123u8] + entries_text(t));
        }
        i = i + 1;
    }
    out.push(125u8);
    proof {
        let e = summaries(entries@);
        assert(e.take(e.len() as int) =~= e);
        assert(out@ =~= report_text(e));
        assert(sorted_listing(e, m));
    }
    out
}

} // verus!
