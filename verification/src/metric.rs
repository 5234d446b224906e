use vstd::prelude::*;
use crate::read::{Read, gc_count, upper};

verus! {

/// What one read adds to a running total.
pub enum Metric {
    /// One for every read that has at least one base.
    Reads,
    /// The read's length.
    Bases,
    /// The read's number of `G`/`C` bases.
    GcBases,
    /// One for every read of exactly this length.
    Length(nat),
    /// One for every read whose rounded GC percentage is this.
    GcPercent(nat),
    /// One for every read with quality scores whose rounded mean is this.
    MeanQuality(nat),
    /// One for every read that reaches this position.
    Depth(nat),
    /// One for every read whose upper-cased base at this position is this symbol.
    Symbol(nat, u8),
    /// The read's quality score at this position, if it has one there.
    QualitySum(nat),
    /// One for every read of at least ten bases whose first ten have this key.
    Prefix(nat),
}

/// The amount that `r` adds to the total of `m`. A read without bases adds
/// nothing to any total.
pub open spec fn contribution(m: Metric, r: Read) -> nat {
    let len = r.bases@.len();
    match m {
        Metric::Reads => if len > 0 { 1 } else { 0 },
        Metric::Bases => len,
        Metric::GcBases => gc_count(r.bases@),
        Metric::Length(l) => if len > 0 && len == l { 1 } else { 0 },
        Metric::GcPercent(p) => if len > 0 && r.gc_percent() == p { 1 } else { 0 },
        Metric::MeanQuality(q) => if len > 0 && r.qualities@.len() > 0 && r.mean_quality() == q {
            1
        } else {
            0
        },
        Metric::Depth(i) => if i < len { 1 } else { 0 },
        Metric::Symbol(i, b) => if i < len && upper(r.bases@[i as int]) == b { 1 } else { 0 },
        Metric::QualitySum(i) => if i < len && i < r.qualities@.len() {
            r.qualities@[i as int] as nat
        } else {
            0
        },
        Metric::Prefix(k) => if len >= 10 && r.prefix_key() == k { 1 } else { 0 },
    }
}

/// The total of `m` over `reads`.
pub open spec fn tally(reads: Seq<Read>, m: Metric) -> nat
    decreases reads.len(),
{
    if reads.len() == 0 {
        0
    } else {
        tally(reads.drop_last(), m) + contribution(m, reads.last())
    }
}

/// Adding a read adds its contribution.
pub proof fn lemma_tally_push(reads: Seq<Read>, r: Read, m: Metric)
    ensures
        tally(reads.push(r), m) == tally(reads, m) + contribution(m, r),
{
    assert(reads.push(r).drop_last() =~= reads);
}

/// If every read adds to `a` at most `c` times what it adds to `b`, the
/// totals compare in the same way.
pub proof fn lemma_tally_scaled(reads: Seq<Read>, a: Metric, b: Metric, c: nat)
    requires
        forall|r: Read| #[trigger] contribution(a, r) <= c * contribution(b, r),
    ensures
        tally(reads, a) <= c * tally(reads, b),
    decreases reads.len(),
{
    if reads.len() > 0 {
        lemma_tally_scaled(reads.drop_last(), a, b, c);
        let x = tally(reads.drop_last(), b);
        let y = contribution(b, reads.last());
        assert(contribution(a, reads.last()) <= c * y);
        assert(c * (x + y) == c * x + c * y) by (nonlinear_arith);
    } else {
        assert(c * 0 == 0) by (nonlinear_arith);
    }
}

/// A total is at least what any one of the reads adds to it.
pub proof fn lemma_tally_member(reads: Seq<Read>, j: int, m: Metric)
    requires
        0 <= j < reads.len(),
    ensures
        contribution(m, reads[j]) <= tally(reads, m),
    decreases reads.len(),
{
    if j < reads.len() - 1 {
        lemma_tally_member(reads.drop_last(), j, m);
    }
}

/// A positive total has a read that adds to it.
pub proof fn lemma_tally_witness(reads: Seq<Read>, m: Metric) -> (j: int)
    requires
        tally(reads, m) > 0,
    ensures
        0 <= j < reads.len(),
        contribution(m, reads[j]) > 0,
    decreases reads.len(),
{
    if contribution(m, reads.last()) > 0 {
        reads.len() - 1
    } else {
        lemma_tally_witness(reads.drop_last(), m)
    }
}

} // verus!
