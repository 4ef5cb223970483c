//! The table from keys to statistics, kept in a foldhash hash map.

use vstd::prelude::*;
use crate::error::Error;
use crate::measurement::VALUE_BOUND;
use crate::stats::{add_value, combine, merge_tables, Stats, Summary};

verus! {

/// A hash map from raw key bytes to their statistics.
#[verifier::external_body]
pub struct StationMap {
    map: foldhash::HashMap<Vec<u8>, Stats>,
}

/// The entries that a `StationMap` holds.
pub uninterp spec fn station_map_contents(m: StationMap) -> Map<Seq<u8>, Stats>;

impl View for StationMap {
    type V = Map<Seq<u8>, Summary>;

    open spec fn view(&self) -> Map<Seq<u8>, Summary> {
        station_map_contents(*self).map_values(|s: Stats| s@)
    }
}

/// Relies on `HashMap::default` with foldhash's `RandomState`: a new map
/// is empty.
#[verifier::external_body]
fn empty_map() -> (r: StationMap)
    ensures
        forall|k: Seq<u8>| !#[trigger] station_map_contents(r).contains_key(k),
{
    StationMap { map: foldhash::HashMap::default() }
}

/// Relies on `HashMap::get`: the value stored under a key equal to `key`,
/// if any (`Vec<u8>` borrows as `[u8]` with the same equality and hash).
#[verifier::external_body]
fn lookup(m: &StationMap, key: &[u8]) -> (r: Option<Stats>)
    ensures
        r is Some <==> station_map_contents(*m).contains_key(key@),
        r matches Some(s) ==> s == station_map_contents(*m)[key@],
{
    m.map.get(key).copied()
}

/// Relies on `HashMap::insert`: afterwards `key` maps to `value` and no
/// other entry has changed.
#[verifier::external_body]
fn store(m: &mut StationMap, key: Vec<u8>, value: Stats)
    ensures
        station_map_contents(*final(m)) == station_map_contents(*old(m)).insert(key@, value),
{
    m.map.insert(key, value);
}

/// Relies on `HashMap::into_iter`: each entry comes out once, in an
/// order that is not specified.
#[verifier::external_body]
fn into_entries(m: StationMap) -> (r: Vec<(Vec<u8>, Stats)>)
    ensures
        forall|i: int, j: int|
            0 <= i < j < r@.len() ==> #[trigger] r@[i].0@ != #[trigger] r@[j].0@,
        forall|i: int|
            0 <= i < r@.len() ==> station_map_contents(m).contains_key(#[trigger] r@[i].0@)
                && station_map_contents(m)[r@[i].0@] == r@[i].1,
        forall|k: Seq<u8>|
            #[trigger] station_map_contents(m).contains_key(k) ==> exists|i: int|
                0 <= i < r@.len() && #[trigger] r@[i].0@ == k,
{
    m.map.into_iter().collect()
}

/// Whether every key of both tables has counts that sum within `u64`.
pub open spec fn merge_fits(a: Map<Seq<u8>, Summary>, b: Map<Seq<u8>, Summary>) -> bool {
    forall|k: Seq<u8>|
        a.contains_key(k) && b.contains_key(k) ==> #[trigger] a[k].count + #[trigger] b[k].count
            <= u64::MAX
}

impl StationMap {
    /// Every entry is the record of a non-empty set of values.
    pub open spec fn wf(&self) -> bool {
        forall|k: Seq<u8>| #[trigger]
            station_map_contents(*self).contains_key(k) ==> station_map_contents(*self)[k].wf()
    }

    pub fn new() -> (r: StationMap)
        ensures
            r.wf(),
            r@ == Map::<Seq<u8>, Summary>::empty(),
    {
        let r = empty_map();
        assert(r@ =~= Map::<Seq<u8>, Summary>::empty());
        r
    }

    /// The statistics of `key`, if it has been seen.
    pub fn get(&self, key: &[u8]) -> (r: Option<Stats>)
        requires
            self.wf(),
        ensures
            r is Some <==> self@.contains_key(key@),
            r matches Some(s) ==> s.wf() && s@ == self@[key@],
    {
        lookup(self, key)
    }

    /// Adds one value for `key`. Fails, changing nothing, where the key's
    /// count is already `u64::MAX`.
    pub fn record(&mut self, key: &[u8], v: i64) -> (r: Result<(), Error>)
        requires
            old(self).wf(),
            -VALUE_BOUND < v < VALUE_BOUND,
        ensures
            final(self).wf(),
            r is Err <==> old(self)@.contains_key(key@) && old(self)@[key@].count == u64::MAX,
            r matches Err(e) ==> e == Error::Overflow && final(self)@ == old(self)@,
            r is Ok ==> final(self)@ == add_value(old(self)@, key@, v as int),
    {
        let one = Stats::single(v);
        let updated = match lookup(self, key) {
            Some(s) => {
                match s.combine(&one) {
                    Some(c) => c,
                    None => {
                        return Err(Error::Overflow);
                    },
                }
            },
            None => one,
        };
        let owned = vstd::slice::slice_to_vec(key);
        store(self, owned, updated);
        assert(self@ =~= add_value(old(self)@, key@, v as int));
        Ok(())
    }

    /// Takes every entry of `other` into `self`: a key of one side keeps
    /// its statistics, a key of both gets the combined ones. Fails where a
    /// combined count would not fit in a `u64`.
    pub fn merge(&mut self, other: StationMap) -> (r: Result<(), Error>)
        requires
            old(self).wf(),
            other.wf(),
        ensures
            r is Err <==> !merge_fits(old(self)@, other@),
            r matches Err(e) ==> e == Error::Overflow,
            r is Ok ==> final(self).wf() && final(self)@ == merge_tables(old(self)@, other@),
    {
        let ghost other_view = other@;
        let ghost other_contents = station_map_contents(other);
        let entries = into_entries(other);
        let ghost mut done: Map<Seq<u8>, Summary> = Map::empty();
        assert(self@ =~= merge_tables(old(self)@, done));
        let mut i: usize = 0;
        while i < entries.len()
            invariant
                0 <= i <= entries@.len(),
                self.wf(),
                forall|a: int, b: int|
                    0 <= a < b < entries@.len() ==> #[trigger] entries@[a].0@
                        != #[trigger] entries@[b].0@,
                forall|a: int|
                    0 <= a < entries@.len() ==> other_contents.contains_key(#[trigger] entries@[a].0@)
                        && other_contents[entries@[a].0@] == entries@[a].1,
                forall|k: Seq<u8>|
                    #[trigger] other_contents.contains_key(k) ==> other_contents[k].wf(),
                other_view == other_contents.map_values(|s: Stats| s@),
                other_view == other@,
                forall|k: Seq<u8>|
                    #[trigger] done.contains_key(k) <==> exists|a: int|
                        0 <= a < i && #[trigger] entries@[a].0@ == k,
                forall|k: Seq<u8>| #[trigger]
                    done.contains_key(k) ==> other_view.contains_key(k) && done[k] == other_view[k],
                merge_fits(old(self)@, done),
                self@ == merge_tables(old(self)@, done),
            decreases entries@.len() - i,
        {
            let key = &entries[i].0;
            let theirs = entries[i].1;
            let ghost k = key@;
            assert(!done.contains_key(k)) by {
                if done.contains_key(k) {
                    let a = choose|a: int| 0 <= a < i && #[trigger] entries@[a].0@ == k;
                    assert(entries@[a].0@ != entries@[i as int].0@);
                }
            }
            assert(other_contents.contains_key(k));
            assert(other_view.contains_key(k) && other_view[k] == theirs@);
            assert(self@.contains_key(k) == old(self)@.contains_key(k));
            assert(self@.contains_key(k) ==> self@[k] == old(self)@[k]);
            let ghost before = self@;
            let combined = match lookup(self, key.as_slice()) {
                Some(mine) => {
                    match mine.combine(&theirs) {
                        Some(c) => c,
                        None => {
                            assert(self@.contains_key(k));
                            assert(self@[k] == mine@);
                            assert(old(self)@.contains_key(k));
                            assert(!(old(self)@[k].count + other_view[k].count <= u64::MAX));
                            assert(!merge_fits(old(self)@, other_view));
                            return Err(Error::Overflow);
                        },
                    }
                },
                None => theirs,
            };
            store(self, key.clone(), combined);
            proof {
                let nd = done.insert(k, other_view[k]);
                assert forall|k2: Seq<u8>| #[trigger] nd.contains_key(k2) <==> exists|a: int|
                    0 <= a < i + 1 && #[trigger] entries@[a].0@ == k2 by {
                    if nd.contains_key(k2) && k2 != k {
                        let a = choose|a: int| 0 <= a < i && #[trigger] entries@[a].0@ == k2;
                    }
                    if exists|a: int| 0 <= a < i + 1 && #[trigger] entries@[a].0@ == k2 {
                        let a = choose|a: int| 0 <= a < i + 1 && #[trigger] entries@[a].0@ == k2;
                        if a < i {
                            assert(done.contains_key(k2));
                        }
                    }
                }
                assert(self@ == before.insert(k, combined@));
                assert(old(self)@.contains_key(k) ==> combined@ == combine(old(self)@[k], other_view[k]));
                assert(!old(self)@.contains_key(k) ==> combined@ == other_view[k]);
                assert(self@ =~= merge_tables(old(self)@, nd));
                assert forall|k2: Seq<u8>|
                    old(self)@.contains_key(k2) && nd.contains_key(k2) implies #[trigger] old(self)@[k2].count
                        + #[trigger] nd[k2].count <= u64::MAX by {
                    if k2 != k {
                        assert(done.contains_key(k2));
                    }
                }
                done = nd;
            }
            i = i + 1;
        }
        assert(done =~= other_view) by {
            assert forall|k: Seq<u8>| other_view.contains_key(k) implies done.contains_key(k) by {
                assert(other_contents.contains_key(k));
                let a = choose|a: int| 0 <= a < entries@.len() && #[trigger] entries@[a].0@ == k;
            }
        }
        Ok(())
    }

    /// The entries, each once, in no particular order.
    pub fn into_entries(self) -> (r: Vec<(Vec<u8>, Stats)>)
        requires
            self.wf(),
        ensures
            forall|i: int, j: int|
                0 <= i < j < r@.len() ==> #[trigger] r@[i].0@ != #[trigger] r@[j].0@,
            forall|i: int|
                0 <= i < r@.len() ==> self@.contains_key(#[trigger] r@[i].0@) && r@[i].1.wf()
                    && self@[r@[i].0@] == r@[i].1@,
            forall|k: Seq<u8>|
                #[trigger] self@.contains_key(k) ==> exists|i: int|
                    0 <= i < r@.len() && #[trigger] r@[i].0@ == k,
    {
        let ghost c = station_map_contents(self);
        let r = into_entries(self);
        assert forall|k: Seq<u8>| #[trigger] self@.contains_key(k) implies exists|i: int|
            0 <= i < r@.len() && #[trigger] r@[i].0@ == k by {
            assert(c.contains_key(k));
        }
        r
    }
}

} // verus!
