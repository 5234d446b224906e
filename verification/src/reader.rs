use vstd::prelude::*;
use crate::read::Read;
use crate::metric::{Metric, tally};
use crate::report::Report;
use crate::aggregator::Aggregator;

verus! {

/// Computes the statistics of `reads` in one pass, front to back, and
/// labels the report with `filename`.
pub fn analyze_fastq(filename: String, reads: &Vec<Read>) -> (report: Report)
    ensures
        report.describes(reads@),
        report.filename@ == filename@,
{
    let mut agg: Aggregator = Aggregator::new();
    let mut i: usize = 0;
    while i < reads.len()
        invariant
            i <= reads@.len(),
            agg.wf(),
            agg@ == reads@.take(i as int),
        decreases reads.len() - i,
    {
        proof {
            lemma_tally_bounded(agg@);
            assert(reads@.take(i + 1) =~= reads@.take(i as int).push(reads@[i as int]));
        }
        agg.add_read(&reads[i]);
        i = i + 1;
    }
    proof {
        assert(reads@.take(i as int) =~= reads@);
    }
    agg.finish(filename)
}

/// There are at most as many reads with bases as there are reads.
pub proof fn lemma_tally_bounded(reads: Seq<Read>)
    ensures
        tally(reads, Metric::Reads) <= reads.len(),
    decreases reads.len(),
{
    if reads.len() > 0 {
        lemma_tally_bounded(reads.drop_last());
    }
}

/// Estimate of the input bytes consumed once `total_bases` bases were read:
/// one and a half bytes per base, capped at `file_size`.
pub fn estimated_bytes(total_bases: u128, file_size: u64) -> (bytes: u64)
    ensures
        bytes as int == if total_bases + total_bases / 2 < file_size {
            total_bases + total_bases / 2
        } else {
            file_size as int
        },
{
    let half: u128 = total_bases / 2;
    if total_bases - half >= file_size as u128 {
        file_size
    } else if total_bases + half < file_size as u128 {
        (total_bases + half) as u64
    } else {
        file_size
    }
}

} // verus!
