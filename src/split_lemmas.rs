//! How record splitting behaves when bytes are appended.

use vstd::prelude::*;
use crate::records::{consumed_len, find_from, first_failure, observations, split_records, NEWLINE, SEMICOLON};
use crate::stats::{fold_values, lemma_fold_concat, Summary};

verus! {

pub proof fn lemma_find_bounds(s: Seq<u8>, b: u8, from: int)
    requires
        0 <= from,
    ensures
        from <= s.len() ==> from <= find_from(s, b, from) <= s.len(),
        find_from(s, b, from) < s.len() ==> s[find_from(s, b, from)] == b,
        forall|k: int| from <= k < find_from(s, b, from) ==> s[k] != b,
    decreases s.len() - from,
{
    if from < s.len() && s[from] != b {
        lemma_find_bounds(s, b, from + 1);
    }
}

/// Appending bytes does not move an occurrence that was already there.
pub proof fn lemma_find_extend(s: Seq<u8>, t: Seq<u8>, b: u8, from: int)
    requires
        0 <= from,
        find_from(s, b, from) < s.len(),
    ensures
        find_from(s + t, b, from) == find_from(s, b, from),
    decreases s.len() - from,
{
    if s[from] != b {
        lemma_find_extend(s, t, b, from + 1);
    }
}

/// Appending bytes where nothing in `s` from `from` on is `b`.
pub proof fn lemma_find_past(s: Seq<u8>, t: Seq<u8>, b: u8, from: int)
    requires
        0 <= from <= s.len(),
        find_from(s, b, from) == s.len(),
    ensures
        find_from(s + t, b, from) == s.len() + find_from(t, b, 0),
    decreases s.len() - from,
{
    if from < s.len() {
        lemma_find_past(s, t, b, from + 1);
    } else {
        lemma_find_shift(s, t, b, 0);
    }
}

proof fn lemma_find_shift(s: Seq<u8>, t: Seq<u8>, b: u8, k: int)
    requires
        0 <= k <= t.len(),
    ensures
        find_from(s + t, b, s.len() + k) == s.len() + find_from(t, b, k),
    decreases t.len() - k,
{
    if k < t.len() {
        assert((s + t)[s.len() + k] == t[k]);
        lemma_find_shift(s, t, b, k + 1);
    }
}

/// What follows the complete records of `s`.
pub open spec fn pending(s: Seq<u8>) -> Seq<u8> {
    s.skip(consumed_len(s) as int)
}

pub proof fn lemma_consumed_bound(s: Seq<u8>)
    ensures
        consumed_len(s) <= s.len(),
    decreases s.len(),
{
    let i = find_from(s, SEMICOLON, 0);
    let j = find_from(s, NEWLINE, i + 1);
    if 0 <= i < j < s.len() {
        lemma_consumed_bound(s.subrange(j + 1, s.len() as int));
    }
}

/// Splitting `s + t` splits `s`, then what `s` left over together with `t`.
pub proof fn lemma_split_extend(s: Seq<u8>, t: Seq<u8>)
    ensures
        split_records(s + t) == split_records(s) + split_records(pending(s) + t),
        consumed_len(s + t) == consumed_len(s) + consumed_len(pending(s) + t),
    decreases s.len(),
{
    let i = find_from(s, SEMICOLON, 0);
    let j = find_from(s, NEWLINE, i + 1);
    lemma_find_bounds(s, SEMICOLON, 0);
    if i < s.len() {
        lemma_find_bounds(s, NEWLINE, i + 1);
    }
    if 0 <= i < j < s.len() {
        let st = s + t;
        lemma_find_extend(s, t, SEMICOLON, 0);
        lemma_find_extend(s, t, NEWLINE, i + 1);
        let s2 = s.subrange(j + 1, s.len() as int);
        assert(st.subrange(j + 1, st.len() as int) =~= s2 + t);
        assert(st.subrange(0, i) =~= s.subrange(0, i));
        assert(st.subrange(i + 1, j) =~= s.subrange(i + 1, j));
        lemma_split_extend(s2, t);
        lemma_consumed_bound(s2);
        assert(pending(s) =~= pending(s2));
        assert(split_records(s + t) =~= split_records(s) + split_records(pending(s) + t));
    } else {
        assert(pending(s) =~= s);
        assert(split_records(s) =~= Seq::empty());
        assert(split_records(s + t) =~= split_records(s) + split_records(pending(s) + t));
    }
}

pub proof fn lemma_observations_concat(a: Seq<(Seq<u8>, Seq<u8>)>, b: Seq<(Seq<u8>, Seq<u8>)>)
    ensures
        observations(a + b) == observations(a) + observations(b),
{
    assert(observations(a + b) =~= observations(a) + observations(b));
}

/// Where folding a concatenation first stops.
pub proof fn lemma_failure_concat(
    t: Map<Seq<u8>, Summary>,
    a: Seq<(Seq<u8>, Seq<u8>)>,
    b: Seq<(Seq<u8>, Seq<u8>)>,
)
    ensures
        first_failure(t, a + b) == (match first_failure(t, a) {
            Some(e) => Some(e),
            None => first_failure(fold_values(t, observations(a)), b),
        }),
    decreases a.len(),
{
    if a.len() == 0 {
        assert(a + b =~= b);
    } else {
        assert((a + b).drop_first() =~= a.drop_first() + b);
        assert(observations(a).drop_first() =~= observations(a.drop_first()));
        let t2 = crate::stats::add_value(t, a[0].0, crate::measurement::tenths_of(a[0].1));
        lemma_failure_concat(t2, a.drop_first(), b);
    }
}

/// Folding the records of `s + t` into `t0` when `s`'s records fold
/// without failure.
pub proof fn lemma_fold_records_extend(t0: Map<Seq<u8>, Summary>, s: Seq<u8>, t: Seq<u8>)
    ensures
        fold_values(t0, observations(split_records(s + t))) == fold_values(
            fold_values(t0, observations(split_records(s))),
            observations(split_records(pending(s) + t)),
        ),
        first_failure(t0, split_records(s + t)) == (match first_failure(t0, split_records(s)) {
            Some(e) => Some(e),
            None => first_failure(
                fold_values(t0, observations(split_records(s))),
                split_records(pending(s) + t),
            ),
        }),
{
    lemma_split_extend(s, t);
    let a = split_records(s);
    let b = split_records(pending(s) + t);
    lemma_observations_concat(a, b);
    lemma_fold_concat(t0, observations(a), observations(b));
    lemma_failure_concat(t0, a, b);
}

/// What is pending after `a + b` is what is pending after `a`'s own
/// pending bytes and `b`.
pub proof fn lemma_split_pending(a: Seq<u8>, b: Seq<u8>)
    ensures
        pending(a + b) == pending(pending(a) + b),
{
    lemma_split_extend(a, b);
    lemma_consumed_bound(a);
    lemma_consumed_bound(pending(a) + b);
    assert(pending(a + b) =~= pending(pending(a) + b));
}

/// Pending bytes hold no complete record.
pub proof fn lemma_pending_has_no_record(s: Seq<u8>)
    ensures
        split_records(pending(s)) == Seq::<(Seq<u8>, Seq<u8>)>::empty(),
        consumed_len(pending(s)) == 0,
        pending(pending(s)) == pending(s),
    decreases s.len(),
{
    let i = find_from(s, SEMICOLON, 0);
    let j = find_from(s, NEWLINE, i + 1);
    if 0 <= i < j < s.len() {
        let s2 = s.subrange(j + 1, s.len() as int);
        lemma_consumed_bound(s2);
        assert(pending(s) =~= pending(s2));
        lemma_pending_has_no_record(s2);
    } else {
        assert(pending(s) =~= s);
        assert(split_records(s) =~= Seq::empty());
        assert(pending(pending(s)) =~= pending(s));
    }
}

/// An occurrence found within `s` is found in `s` alone.
pub proof fn lemma_find_prefix(s: Seq<u8>, t: Seq<u8>, b: u8, from: int)
    requires
        0 <= from,
        find_from(s + t, b, from) < s.len(),
    ensures
        find_from(s, b, from) == find_from(s + t, b, from),
    decreases s.len() - from,
{
    lemma_find_bounds(s + t, b, from);
    if (s + t)[from] != b {
        lemma_find_prefix(s, t, b, from + 1);
    }
}

} // verus!
