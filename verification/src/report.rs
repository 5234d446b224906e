use vstd::prelude::*;
use std::collections::HashMap;
use crate::read::{BASE_A, BASE_C, BASE_G, BASE_N, BASE_T, Read, pack};
use crate::metric::{Metric, tally};

verus! {

/// An exact quotient `num / den`; zero where nothing was counted (`den == 0`).
#[derive(Clone, Copy, Debug)]
pub struct Ratio {
    pub num: u128,
    pub den: u128,
}

/// An exact percentage `100 * part / whole`; zero where nothing was counted
/// (`whole == 0`).
#[derive(Clone, Copy, Debug)]
pub struct Percent {
    pub part: u128,
    pub whole: u128,
}

/// A ten-base prefix that starts more than one read in a thousand.
#[derive(Debug)]
pub struct Overrepresented {
    pub sequence: Vec<u8>,
    pub percentage: Percent,
    pub count: usize,
}

/// The finished statistics of one run.
#[derive(Debug)]
pub struct Report {
    pub filename: String,
    pub total_reads: usize,
    pub avg_length: Ratio,
    pub min_length: usize,
    pub max_length: usize,
    pub mode_length: usize,
    pub gc_content: Percent,
    pub qualities_per_position: Vec<Ratio>,
    pub read_length_histogram: HashMap<usize, usize>,
    pub gc_percent_histogram: HashMap<u8, usize>,
    pub percent_a: Vec<Percent>,
    pub percent_t: Vec<Percent>,
    pub percent_g: Vec<Percent>,
    pub percent_c: Vec<Percent>,
    pub per_sequence_quality_histogram: HashMap<u8, usize>,
    pub n_content: Vec<Percent>,
    pub overrepresented_sequences: Vec<Overrepresented>,
}

impl Ratio {
    pub open spec fn is(&self, num: nat, den: nat) -> bool {
        self.num == num && self.den == den
    }
}

impl Percent {
    pub open spec fn is(&self, part: nat, whole: nat) -> bool {
        self.part == part && self.whole == whole
    }

    /// Whether the percentage is above 0.1.
    pub open spec fn above_one_in_thousand(&self) -> bool {
        1000 * self.part > self.whole
    }
}

/// `min` is the least length of a read with bases, or 0 where there is none.
pub open spec fn is_min_length(reads: Seq<Read>, min: nat) -> bool {
    if tally(reads, Metric::Reads) == 0 {
        min == 0
    } else {
        &&& tally(reads, Metric::Length(min)) > 0
        &&& forall|l: nat| l < min ==> #[trigger] tally(reads, Metric::Length(l)) == 0
    }
}

/// `max` is the greatest length of a read, or 0 where there is none.
pub open spec fn is_max_length(reads: Seq<Read>, max: nat) -> bool {
    &&& max > 0 ==> tally(reads, Metric::Depth((max - 1) as nat)) > 0
    &&& forall|i: nat| i >= max ==> #[trigger] tally(reads, Metric::Depth(i)) == 0
}

/// `mode` is the most frequent length, the least one among equals, or 0
/// where there is no read with bases.
pub open spec fn is_mode_length(reads: Seq<Read>, mode: nat) -> bool {
    &&& tally(reads, Metric::Reads) == 0 ==> mode == 0
    &&& forall|l: nat| #[trigger]
        tally(reads, Metric::Length(l)) <= tally(reads, Metric::Length(mode))
    &&& forall|l: nat|
        l < mode ==> #[trigger] tally(reads, Metric::Length(l)) < tally(
            reads,
            Metric::Length(mode),
        )
}

/// Entry `i` of `column` is the sum of the quality scores at position `i`
/// over the number of reads that reach it.
pub open spec fn is_quality_column(column: Seq<Ratio>, reads: Seq<Read>) -> bool {
    forall|i: int|
        0 <= i < column.len() ==> (#[trigger] column[i]).is(
            tally(reads, Metric::QualitySum(i as nat)),
            tally(reads, Metric::Depth(i as nat)),
        )
}

/// Entry `i` of `column` is the number of reads with `symbol` at position
/// `i` over the number of reads that reach it.
pub open spec fn is_share_column(column: Seq<Percent>, reads: Seq<Read>, symbol: u8) -> bool {
    forall|i: int|
        0 <= i < column.len() ==> (#[trigger] column[i]).is(
            tally(reads, Metric::Symbol(i as nat, symbol)),
            tally(reads, Metric::Depth(i as nat)),
        )
}

/// `hist` maps each length that occurs among `reads` to the number of reads
/// of that length, and holds no other key.
pub open spec fn counts_lengths(hist: Map<usize, usize>, reads: Seq<Read>) -> bool {
    &&& forall|l: usize|
        hist.contains_key(l) <==> #[trigger] tally(reads, Metric::Length(l as nat)) > 0
    &&& forall|l: usize| #[trigger]
        hist.contains_key(l) ==> hist[l] == tally(reads, Metric::Length(l as nat))
}

/// `hist` maps each rounded GC percentage that occurs among `reads` to the
/// number of reads that have it, and holds no other key.
pub open spec fn counts_gc_percents(hist: Map<u8, usize>, reads: Seq<Read>) -> bool {
    &&& forall|p: u8|
        hist.contains_key(p) <==> #[trigger] tally(reads, Metric::GcPercent(p as nat)) > 0
    &&& forall|p: u8| #[trigger]
        hist.contains_key(p) ==> hist[p] == tally(reads, Metric::GcPercent(p as nat))
}

/// `hist` maps each rounded mean quality that occurs among `reads` to the
/// number of reads that have it, and holds no other key.
pub open spec fn counts_mean_qualities(hist: Map<u8, usize>, reads: Seq<Read>) -> bool {
    &&& forall|q: u8|
        hist.contains_key(q) <==> #[trigger] tally(reads, Metric::MeanQuality(q as nat)) > 0
    &&& forall|q: u8| #[trigger]
        hist.contains_key(q) ==> hist[q] == tally(reads, Metric::MeanQuality(q as nat))
}

/// The order of the overrepresented list: more frequent first, and among
/// equally frequent prefixes the lexicographically smaller first.
pub open spec fn precedes(a: Overrepresented, b: Overrepresented) -> bool {
    a.count > b.count || (a.count == b.count && pack(a.sequence@) < pack(b.sequence@))
}

/// The entry counts the reads that start with its sequence, which are more
/// than one in a thousand.
pub open spec fn entry_counts(e: Overrepresented, reads: Seq<Read>) -> bool {
    &&& e.sequence@.len() == 10
    &&& e.count == tally(reads, Metric::Prefix(pack(e.sequence@)))
    &&& e.percentage.is(e.count as nat, tally(reads, Metric::Reads))
    &&& e.percentage.above_one_in_thousand()
}

/// Every entry of `list` precedes those after it.
pub open spec fn is_ordered(list: Seq<Overrepresented>) -> bool {
    forall|j: int, k: int|
        0 <= j < k < list.len() ==> precedes(#[trigger] list[j], #[trigger] list[k])
}

/// `list` holds exactly the prefixes that start more than 0.1 % of `reads`,
/// each with its count, in the order of [`precedes`].
pub open spec fn lists_overrepresented(list: Seq<Overrepresented>, reads: Seq<Read>) -> bool {
    &&& forall|j: int| 0 <= j < list.len() ==> entry_counts(#[trigger] list[j], reads)
    &&& is_ordered(list)
    &&& forall|key: nat|
        1000 * #[trigger] tally(reads, Metric::Prefix(key)) > tally(reads, Metric::Reads)
            ==> exists|j: int| 0 <= j < list.len() && pack(#[trigger] list[j].sequence@) == key
}

impl Report {
    /// The report holds the statistics of `reads`.
    pub open spec fn describes(&self, reads: Seq<Read>) -> bool {
        &&& self.total_reads == tally(reads, Metric::Reads)
        &&& self.avg_length.is(tally(reads, Metric::Bases), tally(reads, Metric::Reads))
        &&& is_min_length(reads, self.min_length as nat)
        &&& is_max_length(reads, self.max_length as nat)
        &&& is_mode_length(reads, self.mode_length as nat)
        &&& self.gc_content.is(tally(reads, Metric::GcBases), tally(reads, Metric::Bases))
        &&& self.qualities_per_position@.len() == self.max_length
        &&& self.percent_a@.len() == self.max_length
        &&& self.percent_t@.len() == self.max_length
        &&& self.percent_g@.len() == self.max_length
        &&& self.percent_c@.len() == self.max_length
        &&& self.n_content@.len() == self.max_length
        &&& is_quality_column(self.qualities_per_position@, reads)
        &&& is_share_column(self.percent_a@, reads, BASE_A)
        &&& is_share_column(self.percent_t@, reads, BASE_T)
        &&& is_share_column(self.percent_g@, reads, BASE_G)
        &&& is_share_column(self.percent_c@, reads, BASE_C)
        &&& is_share_column(self.n_content@, reads, BASE_N)
        &&& counts_lengths(self.read_length_histogram@, reads)
        &&& counts_gc_percents(self.gc_percent_histogram@, reads)
        &&& counts_mean_qualities(self.per_sequence_quality_histogram@, reads)
        &&& lists_overrepresented(self.overrepresented_sequences@, reads)
    }
}

} // verus!
