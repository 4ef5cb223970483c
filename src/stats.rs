//! Per-key statistics: the mathematical model, the bounded record kept at
//! run time, and the table from keys to records.

use vstd::prelude::*;
use crate::measurement::VALUE_BOUND;

verus! {

/// What is known of the values seen for one key.
pub struct Summary {
    pub min: int,
    pub max: int,
    pub sum: int,
    pub count: nat,
}

/// The summary of a single value.
pub open spec fn single(v: int) -> Summary {
    Summary { min: v, max: v, sum: v, count: 1 }
}

pub open spec fn min_int(a: int, b: int) -> int {
    if a <= b {
        a
    } else {
        b
    }
}

pub open spec fn max_int(a: int, b: int) -> int {
    if a >= b {
        a
    } else {
        b
    }
}

/// The summary of the values of two summaries taken together.
pub open spec fn combine(a: Summary, b: Summary) -> Summary {
    Summary {
        min: min_int(a.min, b.min),
        max: max_int(a.max, b.max),
        sum: a.sum + b.sum,
        count: a.count + b.count,
    }
}

/// The table after one more value for `k`.
pub open spec fn add_value(t: Map<Seq<u8>, Summary>, k: Seq<u8>, v: int) -> Map<Seq<u8>, Summary> {
    if t.contains_key(k) {
        t.insert(k, combine(t[k], single(v)))
    } else {
        t.insert(k, single(v))
    }
}

/// Two tables taken together: keys of one side pass through, keys of
/// both sides are combined.
pub open spec fn merge_tables(a: Map<Seq<u8>, Summary>, b: Map<Seq<u8>, Summary>) -> Map<
    Seq<u8>,
    Summary,
> {
    Map::new(
        |k: Seq<u8>| a.contains_key(k) || b.contains_key(k),
        |k: Seq<u8>|
            if a.contains_key(k) && b.contains_key(k) {
                combine(a[k], b[k])
            } else if a.contains_key(k) {
                a[k]
            } else {
                b[k]
            },
    )
}

/// The table after the values of `obs`, in order.
pub open spec fn fold_values(t: Map<Seq<u8>, Summary>, obs: Seq<(Seq<u8>, int)>) -> Map<
    Seq<u8>,
    Summary,
>
    decreases obs.len(),
{
    if obs.len() == 0 {
        t
    } else {
        fold_values(add_value(t, obs[0].0, obs[0].1), obs.drop_first())
    }
}

/// The table of a sequence of observations.
pub open spec fn table_of(obs: Seq<(Seq<u8>, int)>) -> Map<Seq<u8>, Summary> {
    fold_values(Map::empty(), obs)
}

/// How many observations are for key `k`.
pub open spec fn count_key(obs: Seq<(Seq<u8>, int)>, k: Seq<u8>) -> nat
    decreases obs.len(),
{
    if obs.len() == 0 {
        0
    } else {
        (if obs[0].0 == k {
            1nat
        } else {
            0nat
        }) + count_key(obs.drop_first(), k)
    }
}

/// The mean in tenths, rounded to the nearest tenth, halves upward.
pub open spec fn rounded_mean(sum: int, count: nat) -> int {
    (2 * sum + count) / (2 * count as int)
}

/// A summary that some non-empty set of values has.
pub open spec fn consistent(s: Summary) -> bool {
    &&& s.count >= 1
    &&& s.min <= s.max
    &&& s.min * s.count <= s.sum <= s.max * s.count
}

/// Count, minimum, maximum and sum of the values seen for one key.
#[derive(Clone, Copy)]
pub struct Stats {
    pub min: i64,
    pub max: i64,
    pub sum: i128,
    pub count: u64,
}

impl View for Stats {
    type V = Summary;

    open spec fn view(&self) -> Summary {
        Summary {
            min: self.min as int,
            max: self.max as int,
            sum: self.sum as int,
            count: self.count as nat,
        }
    }
}

impl Stats {
    pub open spec fn wf(&self) -> bool {
        &&& consistent(self@)
        &&& -VALUE_BOUND < self.min
        &&& self.max < VALUE_BOUND
    }

    /// The record of one value.
    pub fn single(v: i64) -> (r: Stats)
        requires
            -VALUE_BOUND < v < VALUE_BOUND,
        ensures
            r.wf(),
            r@ == single(v as int),
    {
        Stats { min: v, max: v, sum: v as i128, count: 1 }
    }

    /// The record of the values of both, or `None` where the count would
    /// not fit in a `u64`.
    pub fn combine(&self, other: &Stats) -> (r: Option<Stats>)
        requires
            self.wf(),
            other.wf(),
        ensures
            r is None <==> self.count + other.count > u64::MAX,
            r matches Some(s) ==> s.wf() && s@ == combine(self@, other@),
    {
        if self.count > u64::MAX - other.count {
            return None;
        }
        let count = self.count + other.count;
        proof {
            lemma_sum_bound(self@, other@);
        }
        let s = Stats {
            min: if self.min <= other.min {
                self.min
            } else {
                other.min
            },
            max: if self.max >= other.max {
                self.max
            } else {
                other.max
            },
            sum: self.sum + other.sum,
            count,
        };
        proof {
            lemma_combine_consistent(self@, other@);
        }
        Some(s)
    }

    /// The mean in tenths, rounded to the nearest tenth, halves upward.
    pub fn mean(&self) -> (r: i64)
        requires
            self.wf(),
        ensures
            r == rounded_mean(self.sum as int, self.count as nat),
            self.min <= r <= self.max,
    {
        proof {
            lemma_mean_between(self@);
            lemma_sum_magnitude(self@);
        }
        let num: i128 = 2 * self.sum + self.count as i128;
        let den: i128 = 2 * self.count as i128;
        let q: i128 = if num >= 0 {
            num / den
        } else {
            -((-num + den - 1) / den)
        };
        proof {
            lemma_floor_div(num as int, den as int, q as int);
        }
        q as i64
    }
}

proof fn lemma_floor_div(num: int, den: int, q: int)
    requires
        den > 0,
        num >= 0 ==> q == num / den,
        num < 0 ==> q == -((-num + den - 1) / den),
    ensures
        q == num / den,
{
    if num < 0 {
        let a = -num + den - 1;
        let b = a / den;
        let r = a % den;
        assert(a == b * den + r && 0 <= r < den) by (nonlinear_arith)
            requires
                den > 0,
                b == a / den,
                r == a % den,
        ;
        assert(num == (-b) * den + (den - 1 - r)) by (nonlinear_arith)
            requires
                a == -num + den - 1,
                a == b * den + r,
        ;
        assert(num / den == -b) by (nonlinear_arith)
            requires
                num == (-b) * den + (den - 1 - r),
                0 <= den - 1 - r < den,
        ;
    }
}

proof fn lemma_sum_magnitude(s: Summary)
    requires
        consistent(s),
        -VALUE_BOUND < s.min,
        s.max < VALUE_BOUND,
        s.count <= u64::MAX,
    ensures
        -(VALUE_BOUND as int) * s.count <= s.sum <= (VALUE_BOUND as int) * s.count,
        -0x4000_0000_0000_0000_0000_0000_0000_0000 < s.sum < 0x4000_0000_0000_0000_0000_0000_0000_0000,
{
    let b = VALUE_BOUND as int;
    let c = s.count as int;
    assert(-b * c <= s.min * c) by (nonlinear_arith)
        requires
            -b < s.min,
            c >= 1,
    ;
    assert(s.max * c <= b * c) by (nonlinear_arith)
        requires
            s.max < b,
            c >= 1,
    ;
    assert(b * c <= b * 0xffff_ffff_ffff_ffff) by (nonlinear_arith)
        requires
            c <= 0xffff_ffff_ffff_ffff,
            b > 0,
    ;
    assert(b * 0xffff_ffff_ffff_ffff < 0x4000_0000_0000_0000_0000_0000_0000_0000);
    assert(-b * c == -(b * c)) by (nonlinear_arith);
}

proof fn lemma_sum_bound(a: Summary, b: Summary)
    requires
        consistent(a),
        consistent(b),
        -VALUE_BOUND < a.min,
        a.max < VALUE_BOUND,
        -VALUE_BOUND < b.min,
        b.max < VALUE_BOUND,
        a.count <= u64::MAX,
        b.count <= u64::MAX,
    ensures
        -0x7fff_ffff_ffff_ffff_ffff_ffff_ffff_ffff <= a.sum + b.sum <= 0x7fff_ffff_ffff_ffff_ffff_ffff_ffff_ffff,
{
    lemma_sum_magnitude(a);
    lemma_sum_magnitude(b);
}

proof fn lemma_combine_consistent(a: Summary, b: Summary)
    requires
        consistent(a),
        consistent(b),
    ensures
        consistent(combine(a, b)),
{
    let c = combine(a, b);
    assert(c.min * a.count <= a.sum) by (nonlinear_arith)
        requires
            c.min <= a.min,
            a.min * a.count <= a.sum,
            a.count >= 1,
    ;
    assert(c.min * b.count <= b.sum) by (nonlinear_arith)
        requires
            c.min <= b.min,
            b.min * b.count <= b.sum,
            b.count >= 1,
    ;
    assert(a.sum <= c.max * a.count) by (nonlinear_arith)
        requires
            a.max <= c.max,
            a.sum <= a.max * a.count,
            a.count >= 1,
    ;
    assert(b.sum <= c.max * b.count) by (nonlinear_arith)
        requires
            b.max <= c.max,
            b.sum <= b.max * b.count,
            b.count >= 1,
    ;
    assert(c.min * c.count == c.min * a.count + c.min * b.count) by (nonlinear_arith)
        requires
            c.count == a.count + b.count,
    ;
    assert(c.max * c.count == c.max * a.count + c.max * b.count) by (nonlinear_arith)
        requires
            c.count == a.count + b.count,
    ;
}

/// The rounded mean of a consistent summary lies between its minimum and
/// its maximum.
pub proof fn lemma_mean_between(s: Summary)
    requires
        consistent(s),
    ensures
        s.min <= rounded_mean(s.sum, s.count) <= s.max,
{
    let c = s.count as int;
    let lo = 2 * s.min * c + c;
    let hi = 2 * s.max * c + c;
    let num = 2 * s.sum + c;
    assert(lo <= num <= hi) by (nonlinear_arith)
        requires
            s.min * c <= s.sum <= s.max * c,
            lo == 2 * s.min * c + c,
            hi == 2 * s.max * c + c,
            num == 2 * s.sum + c,
    ;
    assert(lo / (2 * c) == s.min) by (nonlinear_arith)
        requires
            lo == 2 * s.min * c + c,
            c >= 1,
    ;
    assert(hi / (2 * c) == s.max) by (nonlinear_arith)
        requires
            hi == 2 * s.max * c + c,
            c >= 1,
    ;
    assert(lo / (2 * c) <= num / (2 * c) <= hi / (2 * c)) by (nonlinear_arith)
        requires
            lo <= num <= hi,
            c >= 1,
    ;
}

/// Merging tables does not depend on the order of the two sides.
pub proof fn lemma_merge_commutative(a: Map<Seq<u8>, Summary>, b: Map<Seq<u8>, Summary>)
    ensures
        merge_tables(a, b) == merge_tables(b, a),
{
    assert(merge_tables(a, b) =~= merge_tables(b, a));
}

/// Merging tables does not depend on how the merges are grouped.
pub proof fn lemma_merge_associative(
    a: Map<Seq<u8>, Summary>,
    b: Map<Seq<u8>, Summary>,
    c: Map<Seq<u8>, Summary>,
)
    ensures
        merge_tables(merge_tables(a, b), c) == merge_tables(a, merge_tables(b, c)),
{
    assert(merge_tables(merge_tables(a, b), c) =~= merge_tables(a, merge_tables(b, c)));
}

pub proof fn lemma_merge_empty(a: Map<Seq<u8>, Summary>)
    ensures
        merge_tables(a, Map::empty()) == a,
        merge_tables(Map::empty(), a) == a,
{
    assert(merge_tables(a, Map::empty()) =~= a);
    assert(merge_tables(Map::empty(), a) =~= a);
}

proof fn lemma_add_is_merge(t: Map<Seq<u8>, Summary>, k: Seq<u8>, v: int)
    ensures
        add_value(t, k, v) == merge_tables(t, add_value(Map::empty(), k, v)),
{
    assert(add_value(t, k, v) =~= merge_tables(t, add_value(Map::empty(), k, v)));
}

/// Folding values into a table is merging the table with the table of
/// those values alone.
pub proof fn lemma_fold_is_merge(t: Map<Seq<u8>, Summary>, obs: Seq<(Seq<u8>, int)>)
    ensures
        fold_values(t, obs) == merge_tables(t, table_of(obs)),
    decreases obs.len(),
{
    if obs.len() == 0 {
        lemma_merge_empty(t);
    } else {
        let rest = obs.drop_first();
        let first = add_value(Map::empty(), obs[0].0, obs[0].1);
        lemma_fold_is_merge(add_value(t, obs[0].0, obs[0].1), rest);
        lemma_fold_is_merge(first, rest);
        lemma_add_is_merge(t, obs[0].0, obs[0].1);
        lemma_merge_associative(t, first, table_of(rest));
    }
}

/// Folding a concatenation is folding one part after the other.
pub proof fn lemma_fold_concat(
    t: Map<Seq<u8>, Summary>,
    a: Seq<(Seq<u8>, int)>,
    b: Seq<(Seq<u8>, int)>,
)
    ensures
        fold_values(t, a + b) == fold_values(fold_values(t, a), b),
    decreases a.len(),
{
    if a.len() > 0 {
        assert((a + b).drop_first() =~= a.drop_first() + b);
        lemma_fold_concat(add_value(t, a[0].0, a[0].1), a.drop_first(), b);
    } else {
        assert(a + b =~= b);
    }
}

/// The table of observations split in two is the merge of the tables of
/// the parts.
pub proof fn lemma_table_of_concat(a: Seq<(Seq<u8>, int)>, b: Seq<(Seq<u8>, int)>)
    ensures
        table_of(a + b) == merge_tables(table_of(a), table_of(b)),
{
    lemma_fold_concat(Map::empty(), a, b);
    lemma_fold_is_merge(table_of(a), b);
}

proof fn lemma_fold_counts(t: Map<Seq<u8>, Summary>, obs: Seq<(Seq<u8>, int)>, k: Seq<u8>)
    requires
        forall|j: Seq<u8>| #[trigger] t.contains_key(j) ==> consistent(t[j]),
    ensures
        forall|j: Seq<u8>| #[trigger]
            fold_values(t, obs).contains_key(j) ==> consistent(fold_values(t, obs)[j]),
        fold_values(t, obs).contains_key(k) <==> t.contains_key(k) || count_key(obs, k) > 0,
        fold_values(t, obs).contains_key(k) ==> fold_values(t, obs)[k].count == (if t.contains_key(
            k,
        ) {
            t[k].count
        } else {
            0
        }) + count_key(obs, k),
    decreases obs.len(),
{
    if obs.len() > 0 {
        let t2 = add_value(t, obs[0].0, obs[0].1);
        assert forall|j: Seq<u8>| #[trigger] t2.contains_key(j) implies consistent(t2[j]) by {
            if j == obs[0].0 && t.contains_key(j) {
                lemma_combine_consistent(t[j], single(obs[0].1));
            }
        }
        lemma_fold_counts(t2, obs.drop_first(), k);
    }
}

/// Every key of the table of some observations has as its count the
/// number of observations for it, which is never zero, and a minimum, mean
/// and maximum in that order. A key has an entry exactly when it was
/// observed.
pub proof fn lemma_table_of_counts(obs: Seq<(Seq<u8>, int)>, k: Seq<u8>)
    ensures
        table_of(obs).contains_key(k) <==> count_key(obs, k) > 0,
        table_of(obs).contains_key(k) ==> {
            let s = table_of(obs)[k];
            &&& s.count == count_key(obs, k)
            &&& consistent(s)
            &&& s.min <= rounded_mean(s.sum, s.count) <= s.max
        },
{
    lemma_fold_counts(Map::empty(), obs, k);
    if table_of(obs).contains_key(k) {
        lemma_mean_between(table_of(obs)[k]);
    }
}

} // verus!
