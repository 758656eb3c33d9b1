//! Derived statistics over one or two corpora: unique-count-per-length,
//! growth ratios between consecutive lengths, per-length maxima, the
//! reference-relative scaling divisor, top-N truncation, and the shared
//! y-axis headroom policy.

use vstd::prelude::*;

use vstd::arithmetic::div_mod::lemma_div_is_ordered;
use vstd::arithmetic::div_mod::lemma_div_multiples_vanish;
use vstd::arithmetic::div_mod::lemma_div_non_zero;
use vstd::arithmetic::div_mod::lemma_fundamental_div_mod;

use crate::corpus::sorted_desc;
use crate::corpus::CorpusSet;
use crate::corpus::EntryV;
use crate::corpus::FrequencyTable;

verus! {

/// Top-N limit for the 1-gram table (a domain-tuned threshold).
pub const LENGTH_1_LIMIT: usize = 80;

/// Top-N limit for the 2-gram table (a domain-tuned threshold).
pub const LENGTH_2_LIMIT: usize = 115;

/// Top-N limit for the 3-gram table (a domain-tuned threshold).
pub const LENGTH_3_LIMIT: usize = 90;

/// An aggregate that needs a maximum was asked to work on a table with no
/// entries; fatal for the chart being produced, not for the run.
#[derive(Clone, Copy, Debug, PartialEq, Eq, Structural)]
pub enum AggregateError {
    EmptyTable,
}

/// The largest count in a table, 0 for an empty table.
pub open spec fn max_count(s: Seq<EntryV>) -> u64
    decreases s.len(),
{
    if s.len() == 0 {
        0
    } else {
        let m = max_count(s.drop_last());
        if s.last().0 > m {
            s.last().0
        } else {
            m
        }
    }
}

/// The number of distinct ranked tokens per n-gram length, in length order.
pub fn unique_counts(corpus: &CorpusSet) -> (r: Vec<(usize, usize)>)
    ensures
        r@.len() == 3,
        r@[0].0 == 1 && r@[0].1 == corpus@.0.len(),
        r@[1].0 == 2 && r@[1].1 == corpus@.1.len(),
        r@[2].0 == 3 && r@[2].1 == corpus@.2.len(),
{
    let mut r: Vec<(usize, usize)> = Vec::new();
    r.push((1, corpus.table(1).len()));
    r.push((2, corpus.table(2).len()));
    r.push((3, corpus.table(3).len()));
    r
}

/// The growth ratio from each n-gram length to the next, in length order:
/// the ratio for length 1 is 1 by convention (no predecessor), and for a
/// longer length it is that length's unique count divided by the previous
/// length's, with integer (floor) division.
pub fn growth_ratios(corpus: &CorpusSet) -> (r: Vec<(usize, usize)>)
    requires
        corpus@.0.len() > 0,
        corpus@.1.len() > 0,
    ensures
        r@.len() == 3,
        r@[0].0 == 1 && r@[0].1 == 1,
        r@[1].0 == 2 && r@[1].1 == corpus@.1.len() / corpus@.0.len(),
        r@[2].0 == 3 && r@[2].1 == corpus@.2.len() / corpus@.1.len(),
{
    let len1 = corpus.table(1).len();
    let len2 = corpus.table(2).len();
    let len3 = corpus.table(3).len();
    let mut r: Vec<(usize, usize)> = Vec::new();
    r.push((1, 1));
    r.push((2, len2 / len1));
    r.push((3, len3 / len2));
    r
}

/// The maximum count among a table's entries; `EmptyTable` if it has none.
pub fn per_length_max(table: &FrequencyTable) -> (r: Result<u64, AggregateError>)
    ensures
        table@.len() == 0 ==> r == Err::<u64, AggregateError>(AggregateError::EmptyTable),
        table@.len() > 0 ==> r == Ok::<u64, AggregateError>(max_count(table@)),
{
    let n = table.len();
    if n == 0 {
        return Err(AggregateError::EmptyTable);
    }
    let mut m: u64 = table.count_at(0);
    let mut i: usize = 1;
    proof {
        assert(max_count(Seq::<EntryV>::empty()) == 0);
        assert(table@.subrange(0, 1).drop_last() =~= Seq::<EntryV>::empty());
        assert(table@.subrange(0, 1).last() == table@[0]);
        assert(m == max_count(table@.subrange(0, 1)));
    }
    while i < n
        invariant
            1 <= i <= n,
            n == table@.len(),
            m == max_count(table@.subrange(0, i as int)),
        decreases n - i,
    {
        let c = table.count_at(i);
        proof {
            assert(table@.subrange(0, i + 1).drop_last() =~= table@.subrange(0, i as int));
            assert(table@.subrange(0, i + 1).last() == table@[i as int]);
        }
        if c > m {
            m = c;
        }
        i = i + 1;
    }
    proof {
        assert(table@.subrange(0, n as int) =~= table@);
    }
    Ok(m)
}

/// The maximum count is an upper bound on every count, and is one of the
/// counts.
pub proof fn lemma_max_count_is_max(s: Seq<EntryV>)
    requires
        s.len() > 0,
    ensures
        forall|i: int| 0 <= i < s.len() ==> #[trigger] s[i].0 <= max_count(s),
        exists|i: int| 0 <= i < s.len() && #[trigger] s[i].0 == max_count(s),
    decreases s.len(),
{
    if s.len() == 1 {
        assert(max_count(Seq::<EntryV>::empty()) == 0);
        assert(s.drop_last() =~= Seq::<EntryV>::empty());
        assert(s[0].0 == max_count(s));
    } else {
        lemma_max_count_is_max(s.drop_last());
        let rest = s.drop_last();
        assert forall|i: int| 0 <= i < s.len() implies #[trigger] s[i].0 <= max_count(s) by {
            if i < s.len() - 1 {
                assert(s[i] == rest[i]);
            }
        }
        if s.last().0 > max_count(rest) {
            assert(s[s.len() - 1].0 == max_count(s));
        } else {
            let j = choose|j: int| 0 <= j < rest.len() && #[trigger] rest[j].0 == max_count(rest);
            assert(s[j].0 == max_count(s));
        }
    }
}

/// The divisor that scales a reference table's counts down to the subject's
/// range: `reference_max / subject_max` with integer (floor) division. The
/// caller must guarantee a non-zero subject maximum.
pub fn reference_scale(subject_max: u64, reference_max: u64) -> (d: u64)
    requires
        subject_max > 0,
    ensures
        d == reference_max as int / subject_max as int,
{
    reference_max / subject_max
}

/// Law: when the reference maximum is a whole multiple of the subject
/// maximum, no reference count scaled down by the reference divisor exceeds
/// the subject maximum.
pub proof fn lemma_reference_scale_bounds(subject_max: u64, reference_max: u64, v: u64)
    requires
        0 < subject_max <= reference_max,
        reference_max as int % subject_max as int == 0,
        v <= reference_max,
    ensures
        v as int / (reference_max as int / subject_max as int) <= subject_max,
{
    let s = subject_max as int;
    let r = reference_max as int;
    let d = r / s;
    lemma_div_non_zero(r, s);
    lemma_fundamental_div_mod(r, s);
    assert(r == d * s);
    lemma_div_is_ordered(v as int, r, d);
    lemma_div_multiples_vanish(s, d);
    assert((d * s) / d == s);
}

/// The y-axis upper bound shared by every chart: the maximum plus 10%
/// headroom, with integer arithmetic.
pub fn axis_upper_bound(max: u64) -> (r: u64)
    requires
        max + max / 10 <= u64::MAX,
    ensures
        r == max + max / 10,
{
    max + max / 10
}

/// The y-axis upper bound for charts over unsigned word values.
pub fn axis_upper_bound_usize(max: usize) -> (r: usize)
    requires
        max + max / 10 <= usize::MAX,
    ensures
        r == max + max / 10,
{
    max + max / 10
}

/// A new corpus whose tables hold only the top entries of this one, up to
/// the given per-length limits; the input corpus is left as it is.
pub fn truncate(corpus: &CorpusSet, limit1: usize, limit2: usize, limit3: usize) -> (r: CorpusSet)
    requires
        corpus.wf(),
    ensures
        r@.0 == corpus@.0.subrange(
            0,
            if limit1 <= corpus@.0.len() {
                limit1 as int
            } else {
                corpus@.0.len() as int
            },
        ),
        r@.1 == corpus@.1.subrange(
            0,
            if limit2 <= corpus@.1.len() {
                limit2 as int
            } else {
                corpus@.1.len() as int
            },
        ),
        r@.2 == corpus@.2.subrange(
            0,
            if limit3 <= corpus@.2.len() {
                limit3 as int
            } else {
                corpus@.2.len() as int
            },
        ),
        r.wf(),
{
    let t1 = corpus.table(1).truncated(limit1);
    let t2 = corpus.table(2).truncated(limit2);
    let t3 = corpus.table(3).truncated(limit3);
    CorpusSet::from_tables(t1, t2, t3)
}

/// Law: truncation never grows a table and keeps the remaining entries in
/// their original places, in their original order.
pub proof fn lemma_truncated_is_prefix(t: Seq<EntryV>, r: Seq<EntryV>, limit: int)
    requires
        0 <= limit,
        r == t.subrange(
            0,
            if limit <= t.len() {
                limit
            } else {
                t.len() as int
            },
        ),
    ensures
        r.len() <= t.len(),
        forall|i: int| 0 <= i < r.len() ==> #[trigger] r[i] == t[i],
        sorted_desc(t) ==> sorted_desc(r),
{
    assert forall|i: int| 0 <= i < r.len() implies #[trigger] r[i] == t[i] by {
        assert(r[i] == t.subrange(
            0,
            if limit <= t.len() {
                limit
            } else {
                t.len() as int
            },
        )[i]);
    }
    if sorted_desc(t) {
        assert forall|i: int, j: int|
            0 <= i < j < r.len() implies #[trigger] r[i].0 >= #[trigger] r[j].0 by {
            assert(r[i] == t[i]);
            assert(r[j] == t[j]);
        }
    }
}

} // verus!
