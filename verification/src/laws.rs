use vstd::prelude::*;
use crate::read::{BASE_A, BASE_C, BASE_G, BASE_N, BASE_T, Read, pack, upper};
use crate::metric::{Metric, contribution, lemma_tally_member, lemma_tally_witness, tally};
use crate::report::{
    Overrepresented, Report, counts_gc_percents, counts_lengths, counts_mean_qualities,
    entry_counts, is_max_length, is_min_length, is_mode_length, is_quality_column,
    is_share_column, lists_overrepresented, precedes,
};

verus! {

/// The reads of `reads` that have at least one base, in order.
pub open spec fn with_bases(reads: Seq<Read>) -> Seq<Read> {
    reads.filter(|r: Read| r.bases@.len() > 0)
}

/// The number of reads counted is the number of reads that have a base.
pub proof fn lemma_reads_counted(reads: Seq<Read>)
    ensures
        tally(reads, Metric::Reads) == with_bases(reads).len(),
    decreases reads.len(),
{
    reveal(Seq::filter);
    if reads.len() > 0 {
        lemma_reads_counted(reads.drop_last());
    }
}

/// Reads without bases change no total: every total over `reads` is the
/// total over its reads that have a base.
pub proof fn lemma_reads_without_bases_skipped(reads: Seq<Read>, m: Metric)
    ensures
        tally(reads, m) == tally(with_bases(reads), m),
    decreases reads.len(),
{
    reveal(Seq::filter);
    if reads.len() > 0 {
        let rest = reads.drop_last();
        lemma_reads_without_bases_skipped(rest, m);
        if reads.last().bases@.len() > 0 {
            assert(with_bases(reads) == with_bases(rest).push(reads.last()));
            assert(with_bases(reads).drop_last() =~= with_bases(rest));
        } else {
            assert(contribution(m, reads.last()) == 0);
        }
    }
}

/// A report counts the reads that have a base, and it is the report on
/// those reads alone: a read without bases shows in no statistic.
pub proof fn lemma_report_skips_reads_without_bases(reads: Seq<Read>, report: Report)
    requires
        report.describes(reads),
    ensures
        report.total_reads == with_bases(reads).len(),
        report.describes(with_bases(reads)),
{
    let kept = with_bases(reads);
    lemma_reads_counted(reads);
    assert forall|m: Metric| #[trigger] tally(kept, m) == tally(reads, m) by {
        lemma_reads_without_bases_skipped(reads, m);
    }
    assert(is_min_length(kept, report.min_length as nat));
    assert(is_max_length(kept, report.max_length as nat));
    assert(is_mode_length(kept, report.mode_length as nat));
    assert(is_quality_column(report.qualities_per_position@, kept));
    assert(is_share_column(report.percent_a@, kept, BASE_A));
    assert(is_share_column(report.percent_t@, kept, BASE_T));
    assert(is_share_column(report.percent_g@, kept, BASE_G));
    assert(is_share_column(report.percent_c@, kept, BASE_C));
    assert(is_share_column(report.n_content@, kept, BASE_N));
    assert(counts_lengths(report.read_length_histogram@, kept));
    assert(counts_gc_percents(report.gc_percent_histogram@, kept));
    assert(counts_mean_qualities(report.per_sequence_quality_histogram@, kept));
    let list = report.overrepresented_sequences@;
    assert forall|j: int| 0 <= j < list.len() implies entry_counts(#[trigger] list[j], kept) by {
        assert(entry_counts(list[j], reads));
    }
    assert(lists_overrepresented(list, kept));
}

/// The sum of the length counts of the lengths below `upto`.
pub open spec fn length_total(reads: Seq<Read>, upto: nat) -> nat
    decreases upto,
{
    if upto == 0 {
        0
    } else {
        length_total(reads, (upto - 1) as nat) + tally(reads, Metric::Length((upto - 1) as nat))
    }
}

proof fn lemma_length_total_empty(reads: Seq<Read>, upto: nat)
    requires
        reads.len() == 0,
    ensures
        length_total(reads, upto) == 0,
    decreases upto,
{
    if upto > 0 {
        lemma_length_total_empty(reads, (upto - 1) as nat);
    }
}

proof fn lemma_length_total_step(reads: Seq<Read>, upto: nat)
    requires
        reads.len() > 0,
    ensures
        length_total(reads, upto) == length_total(reads.drop_last(), upto) + if 0
            < reads.last().bases@.len() < upto {
            1nat
        } else {
            0nat
        },
    decreases upto,
{
    if upto > 0 {
        lemma_length_total_step(reads, (upto - 1) as nat);
    }
}

/// Every read with a base is either shorter than `upto`, and then counted
/// once among the lengths below `upto`, or reaches position `upto - 1`.
pub proof fn lemma_length_total_split(reads: Seq<Read>, upto: nat)
    requires
        upto > 0,
    ensures
        length_total(reads, upto) + tally(reads, Metric::Depth((upto - 1) as nat)) == tally(
            reads,
            Metric::Reads,
        ),
    decreases reads.len(),
{
    if reads.len() == 0 {
        lemma_length_total_empty(reads, upto);
    } else {
        lemma_length_total_split(reads.drop_last(), upto);
        lemma_length_total_step(reads, upto);
    }
}

/// The sum of the values that `hist` holds for the keys below `upto`.
pub open spec fn histogram_total(hist: Map<usize, usize>, upto: nat) -> nat
    decreases upto,
{
    if upto == 0 {
        0
    } else {
        let l = (upto - 1) as usize;
        histogram_total(hist, (upto - 1) as nat) + if hist.contains_key(l) {
            hist[l] as nat
        } else {
            0nat
        }
    }
}

proof fn lemma_histogram_total(hist: Map<usize, usize>, reads: Seq<Read>, upto: nat)
    requires
        counts_lengths(hist, reads),
        upto <= usize::MAX + 1,
    ensures
        histogram_total(hist, upto) == length_total(reads, upto),
    decreases upto,
{
    if upto > 0 {
        lemma_histogram_total(hist, reads, (upto - 1) as nat);
        let l = (upto - 1) as usize;
        assert(hist.contains_key(l) <==> tally(reads, Metric::Length(l as nat)) > 0);
    }
}

/// The values of the length histogram sum to the number of reads, and it
/// has no key outside `1..=max_length`.
pub proof fn lemma_length_histogram_sums_to_reads(reads: Seq<Read>, report: Report)
    requires
        report.describes(reads),
    ensures
        histogram_total(report.read_length_histogram@, (report.max_length + 1) as nat)
            == report.total_reads,
        length_total(reads, (report.max_length + 1) as nat) == report.total_reads,
        forall|l: usize| #[trigger]
            report.read_length_histogram@.contains_key(l) ==> {
                &&& 1 <= l <= report.max_length
                &&& report.read_length_histogram@[l] == tally(reads, Metric::Length(l as nat))
            },
        forall|l: nat|
            !(1 <= l <= report.max_length) ==> #[trigger] tally(reads, Metric::Length(l)) == 0,
{
    lemma_length_total_split(reads, (report.max_length + 1) as nat);
    lemma_histogram_total(report.read_length_histogram@, reads, (report.max_length + 1) as nat);
    assert forall|l: nat| !(1 <= l <= report.max_length) implies #[trigger] tally(
        reads,
        Metric::Length(l),
    ) == 0 by {
        if tally(reads, Metric::Length(l)) > 0 {
            let j = lemma_tally_witness(reads, Metric::Length(l));
            lemma_tally_member(reads, j, Metric::Depth((l - 1) as nat));
        }
    }
    assert forall|l: usize| #[trigger] report.read_length_histogram@.contains_key(l) implies 1 <= l
        <= report.max_length by {
        assert(tally(reads, Metric::Length(l as nat)) > 0);
    }
}

/// Every read with a base is at least as long as the report's least length
/// and at most as long as its greatest.
pub proof fn lemma_lengths_between_min_and_max(reads: Seq<Read>, report: Report, j: int)
    requires
        report.describes(reads),
        0 <= j < reads.len(),
        reads[j].bases@.len() > 0,
    ensures
        report.min_length <= reads[j].bases@.len() <= report.max_length,
{
    let len = reads[j].bases@.len();
    lemma_tally_member(reads, j, Metric::Reads);
    lemma_tally_member(reads, j, Metric::Length(len));
    lemma_tally_member(reads, j, Metric::Depth((len - 1) as nat));
}

/// The five symbol counts of position `i` added up.
pub open spec fn symbol_total(reads: Seq<Read>, i: nat) -> nat {
    tally(reads, Metric::Symbol(i, BASE_A)) + tally(reads, Metric::Symbol(i, BASE_T)) + tally(
        reads,
        Metric::Symbol(i, BASE_G),
    ) + tally(reads, Metric::Symbol(i, BASE_C)) + tally(reads, Metric::Symbol(i, BASE_N))
}

/// Whether the upper-cased symbol is one of `A`, `T`, `G`, `C`, `N`.
pub open spec fn is_known_symbol(b: u8) -> bool {
    let u = upper(b);
    u == BASE_A || u == BASE_T || u == BASE_G || u == BASE_C || u == BASE_N
}

/// At every position the counts of `A`, `T`, `G`, `C` and `N` together are
/// at most the number of reads that reach it, so that the five shares sum
/// to at most one hundred percent.
pub proof fn lemma_symbols_within_depth(reads: Seq<Read>, i: nat)
    ensures
        symbol_total(reads, i) <= tally(reads, Metric::Depth(i)),
    decreases reads.len(),
{
    if reads.len() > 0 {
        lemma_symbols_within_depth(reads.drop_last(), i);
    }
}

/// Where every read that reaches position `i` has one of the five symbols
/// there, the five counts together are exactly the number of those reads.
pub proof fn lemma_symbols_fill_depth(reads: Seq<Read>, i: nat)
    requires
        forall|j: int|
            0 <= j < reads.len() && i < reads[j].bases@.len() ==> is_known_symbol(
                #[trigger] reads[j].bases@[i as int],
            ),
    ensures
        symbol_total(reads, i) == tally(reads, Metric::Depth(i)),
    decreases reads.len(),
{
    if reads.len() > 0 {
        let rest = reads.drop_last();
        assert forall|j: int| 0 <= j < rest.len() && i < rest[j].bases@.len() implies is_known_symbol(
            #[trigger] rest[j].bases@[i as int],
        ) by {
            assert(rest[j] == reads[j]);
        }
        lemma_symbols_fill_depth(rest, i);
        let last = reads.last();
        assert(last == reads[reads.len() - 1]);
        if i < last.bases@.len() {
            assert(is_known_symbol(last.bases@[i as int]));
        }
    }
}

/// In a report the five shares of a position have the same whole, and their
/// parts together do not exceed it.
pub proof fn lemma_shares_sum_within_whole(reads: Seq<Read>, report: Report, i: int)
    requires
        report.describes(reads),
        0 <= i < report.max_length,
    ensures
        report.percent_a@[i].part + report.percent_t@[i].part + report.percent_g@[i].part
            + report.percent_c@[i].part + report.n_content@[i].part <= report.percent_a@[i].whole,
        report.percent_t@[i].whole == report.percent_a@[i].whole,
        report.percent_g@[i].whole == report.percent_a@[i].whole,
        report.percent_c@[i].whole == report.percent_a@[i].whole,
        report.n_content@[i].whole == report.percent_a@[i].whole,
        report.percent_a@[i].whole > 0,
{
    lemma_symbols_within_depth(reads, i as nat);
    lemma_depth_decreases(reads, i as nat, (report.max_length - 1) as nat);
}

/// A position is reached by at least as many reads as any later position.
pub proof fn lemma_depth_decreases(reads: Seq<Read>, i: nat, j: nat)
    requires
        i <= j,
    ensures
        tally(reads, Metric::Depth(j)) <= tally(reads, Metric::Depth(i)),
    decreases reads.len(),
{
    if reads.len() > 0 {
        lemma_depth_decreases(reads.drop_last(), i, j);
    }
}

/// Every entry of the overrepresented list is above 0.1 percent, and the
/// percentages never rise along the list; entries of equal percentage stand
/// in the order of their keys.
pub proof fn lemma_overrepresented_filtered_and_descending(reads: Seq<Read>, report: Report)
    requires
        report.describes(reads),
    ensures
        forall|j: int|
            0 <= j < report.overrepresented_sequences@.len() ==> 1000 * (
            #[trigger] report.overrepresented_sequences@[j]).percentage.part
                > report.overrepresented_sequences@[j].percentage.whole,
        forall|j: int, k: int|
            0 <= j < k < report.overrepresented_sequences@.len() ==> {
                let a = #[trigger] report.overrepresented_sequences@[j];
                let b = #[trigger] report.overrepresented_sequences@[k];
                &&& a.percentage.whole == b.percentage.whole
                &&& a.percentage.part >= b.percentage.part
                &&& a.percentage.part == b.percentage.part ==> pack(a.sequence@) < pack(
                    b.sequence@,
                )
            },
{
    let list = report.overrepresented_sequences@;
    assert forall|j: int, k: int| 0 <= j < k < list.len() implies {
        let a = #[trigger] list[j];
        let b = #[trigger] list[k];
        &&& a.percentage.whole == b.percentage.whole
        &&& a.percentage.part >= b.percentage.part
        &&& a.percentage.part == b.percentage.part ==> pack(a.sequence@) < pack(b.sequence@)
    } by {
        assert(precedes(list[j], list[k]));
        assert(entry_counts(list[j], reads));
        assert(entry_counts(list[k], reads));
    }
}


/// The first `n + 1` bytes of `s` read as one big-endian number.
pub open spec fn head(s: Seq<u8>, n: nat) -> nat
    decreases n,
{
    if n == 0 {
        s[0] as nat
    } else {
        head(s, (n - 1) as nat) * 256 + s[n as int] as nat
    }
}

proof fn lemma_head_injective(a: Seq<u8>, b: Seq<u8>, n: nat)
    requires
        n < a.len(),
        n < b.len(),
        head(a, n) == head(b, n),
    ensures
        forall|i: int| 0 <= i <= n ==> a[i] == b[i],
    decreases n,
{
    if n > 0 {
        let x = head(a, (n - 1) as nat);
        let y = head(b, (n - 1) as nat);
        assert(x * 256 + a[n as int] as nat == y * 256 + b[n as int] as nat);
        assert(x == y);
        lemma_head_injective(a, b, (n - 1) as nat);
    }
}

/// Two prefixes with the same key are the same ten bytes.
pub proof fn lemma_pack_injective(a: Seq<u8>, b: Seq<u8>)
    requires
        a.len() == 10,
        b.len() == 10,
        pack(a) == pack(b),
    ensures
        a == b,
{
    reveal(pack);
    reveal_with_fuel(head, 10);
    assert(pack(a) == head(a, 9));
    assert(pack(b) == head(b, 9));
    lemma_head_injective(a, b, 9);
    assert(a =~= b);
}

proof fn lemma_entry_found(list: Seq<Overrepresented>, reads: Seq<Read>, e: Overrepresented) -> (p:
    int)
    requires
        lists_overrepresented(list, reads),
        entry_counts(e, reads),
    ensures
        0 <= p < list.len(),
        pack(list[p].sequence@) == pack(e.sequence@),
        list[p].count == e.count,
{
    let key = pack(e.sequence@);
    assert(1000 * tally(reads, Metric::Prefix(key)) > tally(reads, Metric::Reads));
    let p = choose|p: int| 0 <= p < list.len() && pack(#[trigger] list[p].sequence@) == key;
    assert(entry_counts(list[p], reads));
    p
}

proof fn lemma_same_key(reads: Seq<Read>, a: Seq<Overrepresented>, b: Seq<Overrepresented>, j: int)
    requires
        lists_overrepresented(a, reads),
        lists_overrepresented(b, reads),
        0 <= j < a.len(),
        j < b.len(),
    ensures
        pack(a[j].sequence@) == pack(b[j].sequence@),
    decreases j,
{
    assert(entry_counts(a[j], reads));
    assert(entry_counts(b[j], reads));
    let p = lemma_entry_found(b, reads, a[j]);
    let q = lemma_entry_found(a, reads, b[j]);
    if p < j {
        lemma_same_key(reads, a, b, p);
        assert(entry_counts(a[p], reads));
        assert(precedes(a[p], a[j]));
        assert(false);
    }
    if q < j {
        lemma_same_key(reads, a, b, q);
        assert(entry_counts(b[q], reads));
        assert(precedes(b[q], b[j]));
        assert(false);
    }
    if p > j && q > j {
        assert(precedes(b[j], b[p]));
        assert(precedes(a[j], a[q]));
        assert(false);
    }
}

proof fn lemma_no_longer(reads: Seq<Read>, a: Seq<Overrepresented>, b: Seq<Overrepresented>)
    requires
        lists_overrepresented(a, reads),
        lists_overrepresented(b, reads),
    ensures
        a.len() <= b.len(),
{
    if a.len() > b.len() {
        let j = b.len() as int;
        assert(entry_counts(a[j], reads));
        let p = lemma_entry_found(b, reads, a[j]);
        lemma_same_key(reads, a, b, p);
        assert(entry_counts(a[p], reads));
        assert(precedes(a[p], a[j]));
        assert(false);
    }
}

/// The reads determine the overrepresented list: two lists for the same
/// reads have the same entries in the same order.
pub proof fn lemma_overrepresented_determined(
    reads: Seq<Read>,
    a: Seq<Overrepresented>,
    b: Seq<Overrepresented>,
)
    requires
        lists_overrepresented(a, reads),
        lists_overrepresented(b, reads),
    ensures
        a.len() == b.len(),
        forall|j: int|
            0 <= j < a.len() ==> {
                &&& (#[trigger] a[j]).sequence@ == b[j].sequence@
                &&& a[j].count == b[j].count
                &&& a[j].percentage == b[j].percentage
            },
{
    lemma_no_longer(reads, a, b);
    lemma_no_longer(reads, b, a);
    assert forall|j: int| 0 <= j < a.len() implies {
        &&& (#[trigger] a[j]).sequence@ == b[j].sequence@
        &&& a[j].count == b[j].count
        &&& a[j].percentage == b[j].percentage
    } by {
        lemma_same_key(reads, a, b, j);
        assert(entry_counts(a[j], reads));
        assert(entry_counts(b[j], reads));
        lemma_pack_injective(a[j].sequence@, b[j].sequence@);
    }
}

/// The reads determine the report: two reports on the same reads agree in
/// every statistic, so that a second run on the same input gives the same
/// result as the first.
pub proof fn lemma_report_determined(reads: Seq<Read>, a: Report, b: Report)
    requires
        a.describes(reads),
        b.describes(reads),
    ensures
        a.total_reads == b.total_reads,
        a.avg_length == b.avg_length,
        a.min_length == b.min_length,
        a.max_length == b.max_length,
        a.mode_length == b.mode_length,
        a.gc_content == b.gc_content,
        a.qualities_per_position@ == b.qualities_per_position@,
        a.percent_a@ == b.percent_a@,
        a.percent_t@ == b.percent_t@,
        a.percent_g@ == b.percent_g@,
        a.percent_c@ == b.percent_c@,
        a.n_content@ == b.n_content@,
        a.read_length_histogram@ == b.read_length_histogram@,
        a.gc_percent_histogram@ == b.gc_percent_histogram@,
        a.per_sequence_quality_histogram@ == b.per_sequence_quality_histogram@,
        a.overrepresented_sequences@.len() == b.overrepresented_sequences@.len(),
        forall|j: int|
            0 <= j < a.overrepresented_sequences@.len() ==> {
                &&& (#[trigger] a.overrepresented_sequences@[j]).sequence@
                    == b.overrepresented_sequences@[j].sequence@
                &&& a.overrepresented_sequences@[j].count == b.overrepresented_sequences@[j].count
                &&& a.overrepresented_sequences@[j].percentage
                    == b.overrepresented_sequences@[j].percentage
            },
{
    lemma_overrepresented_determined(
        reads,
        a.overrepresented_sequences@,
        b.overrepresented_sequences@,
    );
    assert(a.min_length == b.min_length);
    assert(a.max_length == b.max_length) by {
        if a.max_length < b.max_length {
            assert(tally(reads, Metric::Depth((b.max_length - 1) as nat)) == 0);
        }
        if b.max_length < a.max_length {
            assert(tally(reads, Metric::Depth((a.max_length - 1) as nat)) == 0);
        }
    }
    assert(a.mode_length == b.mode_length) by {
        if a.mode_length < b.mode_length {
            assert(tally(reads, Metric::Length(b.mode_length as nat)) <= tally(
                reads,
                Metric::Length(a.mode_length as nat),
            ));
        }
        if b.mode_length < a.mode_length {
            assert(tally(reads, Metric::Length(a.mode_length as nat)) <= tally(
                reads,
                Metric::Length(b.mode_length as nat),
            ));
        }
    }
    assert(a.qualities_per_position@ =~= b.qualities_per_position@);
    assert(a.percent_a@ =~= b.percent_a@);
    assert(a.percent_t@ =~= b.percent_t@);
    assert(a.percent_g@ =~= b.percent_g@);
    assert(a.percent_c@ =~= b.percent_c@);
    assert(a.n_content@ =~= b.n_content@);
    assert(a.read_length_histogram@ =~= b.read_length_histogram@) by {
        assert forall|l: usize|
            a.read_length_histogram@.contains_key(l) == b.read_length_histogram@.contains_key(
                l,
            ) by {
            assert(a.read_length_histogram@.contains_key(l) <==> tally(
                reads,
                Metric::Length(l as nat),
            ) > 0);
            assert(b.read_length_histogram@.contains_key(l) <==> tally(
                reads,
                Metric::Length(l as nat),
            ) > 0);
        }
    }
    assert(a.gc_percent_histogram@ =~= b.gc_percent_histogram@) by {
        assert forall|l: u8|
            a.gc_percent_histogram@.contains_key(l) == b.gc_percent_histogram@.contains_key(
                l,
            ) by {
            assert(a.gc_percent_histogram@.contains_key(l) <==> tally(
                reads,
                Metric::GcPercent(l as nat),
            ) > 0);
            assert(b.gc_percent_histogram@.contains_key(l) <==> tally(
                reads,
                Metric::GcPercent(l as nat),
            ) > 0);
        }
    }
    assert(a.per_sequence_quality_histogram@ =~= b.per_sequence_quality_histogram@) by {
        assert forall|l: u8|
            a.per_sequence_quality_histogram@.contains_key(l)
                == b.per_sequence_quality_histogram@.contains_key(l) by {
            assert(a.per_sequence_quality_histogram@.contains_key(l) <==> tally(
                reads,
                Metric::MeanQuality(l as nat),
            ) > 0);
            assert(b.per_sequence_quality_histogram@.contains_key(l) <==> tally(
                reads,
                Metric::MeanQuality(l as nat),
            ) > 0);
        }
    }
}

} // verus!
