use rustqc::{analyze_fastq, estimated_bytes, Aggregator, Args, Format, Read, Report};

fn read(bases: &str, quality: u8) -> Read {
    Read { bases: bases.as_bytes().to_vec(), qualities: vec![quality; bases.len()] }
}

fn bare(bases: &str) -> Read {
    Read { bases: bases.as_bytes().to_vec(), qualities: Vec::new() }
}

fn run(reads: Vec<Read>) -> Report {
    analyze_fastq(String::from("sample.fastq"), &reads)
}

fn percent(part: u128, whole: u128) -> f64 {
    if whole == 0 {
        0.0
    } else {
        part as f64 / whole as f64 * 100.0
    }
}

fn ratio(num: u128, den: u128) -> f64 {
    if den == 0 {
        0.0
    } else {
        num as f64 / den as f64
    }
}

#[test]
fn three_reads_of_equal_length() {
    let r = run(vec![read("AAAA", 30), read("GGGG", 30), read("AATT", 30)]);
    assert_eq!(r.filename, "sample.fastq");
    assert_eq!(r.total_reads, 3);
    assert_eq!(ratio(r.avg_length.num, r.avg_length.den), 4.0);
    assert_eq!(r.min_length, 4);
    assert_eq!(r.max_length, 4);
    assert_eq!(r.mode_length, 4);
    assert_eq!(r.gc_content.part, 4);
    assert_eq!(r.gc_content.whole, 12);
    assert!((percent(r.gc_content.part, r.gc_content.whole) - 33.33).abs() < 0.01);
    assert_eq!(r.percent_a.len(), 4);
    assert_eq!(r.percent_a[0].part, 2);
    assert_eq!(r.percent_a[0].whole, 3);
    assert!((percent(r.percent_a[0].part, r.percent_a[0].whole) - 66.67).abs() < 0.01);
    assert_eq!(r.percent_g[0].part, 1);
    assert_eq!(r.percent_t[3].part, 1);
    assert_eq!(r.percent_c[2].part, 0);
    assert_eq!(r.n_content[1].part, 0);
    assert_eq!(r.qualities_per_position.len(), 4);
    for q in r.qualities_per_position.iter() {
        assert_eq!(q.num, 90);
        assert_eq!(q.den, 3);
        assert_eq!(ratio(q.num, q.den), 30.0);
    }
    assert_eq!(r.read_length_histogram.len(), 1);
    assert_eq!(r.read_length_histogram[&4], 3);
    assert_eq!(r.gc_percent_histogram.len(), 2);
    assert_eq!(r.gc_percent_histogram[&0], 2);
    assert_eq!(r.gc_percent_histogram[&100], 1);
    assert_eq!(r.per_sequence_quality_histogram.len(), 1);
    assert_eq!(r.per_sequence_quality_histogram[&30], 3);
    assert!(r.overrepresented_sequences.is_empty());
}

#[test]
fn single_short_read_has_no_overrepresented_sequence() {
    let r = run(vec![read("ACGTACGTA", 20)]);
    assert_eq!(r.total_reads, 1);
    assert_eq!(r.max_length, 9);
    assert!(r.overrepresented_sequences.is_empty());
}

#[test]
fn no_reads_give_an_empty_report() {
    let r = run(Vec::new());
    assert_eq!(r.total_reads, 0);
    assert_eq!(r.avg_length.num, 0);
    assert_eq!(ratio(r.avg_length.num, r.avg_length.den), 0.0);
    assert_eq!(r.min_length, 0);
    assert_eq!(r.max_length, 0);
    assert_eq!(r.mode_length, 0);
    assert_eq!(r.gc_content.part, 0);
    assert_eq!(r.gc_content.whole, 0);
    assert!(r.read_length_histogram.is_empty());
    assert!(r.gc_percent_histogram.is_empty());
    assert!(r.per_sequence_quality_histogram.is_empty());
    assert!(r.qualities_per_position.is_empty());
    assert!(r.percent_a.is_empty());
    assert!(r.percent_t.is_empty());
    assert!(r.percent_g.is_empty());
    assert!(r.percent_c.is_empty());
    assert!(r.n_content.is_empty());
    assert!(r.overrepresented_sequences.is_empty());
}

#[test]
fn reads_without_bases_are_skipped() {
    let r = run(vec![bare(""), read("ACGT", 10), bare(""), read("AC", 10)]);
    assert_eq!(r.total_reads, 2);
    assert_eq!(r.avg_length.num, 6);
    assert_eq!(r.avg_length.den, 2);
    assert_eq!(r.min_length, 2);
    assert_eq!(r.read_length_histogram.len(), 2);
    assert!(!r.read_length_histogram.contains_key(&0));
    assert_eq!(r.gc_percent_histogram.len(), 1);
    assert_eq!(r.gc_percent_histogram[&50], 2);
    let only_empty = run(vec![bare(""), Read { bases: Vec::new(), qualities: vec![40, 40] }]);
    assert_eq!(only_empty.total_reads, 0);
    assert!(only_empty.read_length_histogram.is_empty());
    assert!(only_empty.per_sequence_quality_histogram.is_empty());
}

#[test]
fn length_histogram_sums_to_the_number_of_reads() {
    let r = run(vec![bare("A"), bare("ACG"), bare(""), bare("TTT"), bare("ACGTACGTACGT"), bare("G")]);
    assert_eq!(r.total_reads, 5);
    let sum: usize = r.read_length_histogram.values().sum();
    assert_eq!(sum, r.total_reads);
    assert_eq!(r.read_length_histogram[&1], 2);
    assert_eq!(r.read_length_histogram[&3], 2);
    assert_eq!(r.read_length_histogram[&12], 1);
    let gc: usize = r.gc_percent_histogram.values().sum();
    assert_eq!(gc, 5);
}

#[test]
fn every_length_lies_between_min_and_max() {
    let lengths = [7usize, 3, 12, 5, 3, 9];
    let reads: Vec<Read> = lengths.iter().map(|&l| bare(&"A".repeat(l))).collect();
    let r = run(reads);
    assert_eq!(r.min_length, 3);
    assert_eq!(r.max_length, 12);
    for l in lengths {
        assert!(r.min_length <= l && l <= r.max_length);
    }
    assert_eq!(r.percent_a.len(), 12);
    assert_eq!(r.percent_a[11].whole, 1);
    assert_eq!(r.percent_a[2].whole, 6);
    assert_eq!(r.percent_a[3].whole, 4);
}

#[test]
fn shares_at_a_position_sum_to_at_most_one_hundred() {
    let r = run(vec![bare("AXN"), bare("TCN"), bare("GG"), bare("cn"), bare("a-")]);
    for i in 0..r.max_length {
        let whole = r.percent_a[i].whole;
        let parts = r.percent_a[i].part + r.percent_t[i].part + r.percent_g[i].part
            + r.percent_c[i].part + r.n_content[i].part;
        assert!(parts <= whole);
        assert_eq!(r.percent_t[i].whole, whole);
        assert_eq!(r.n_content[i].whole, whole);
    }
    assert_eq!(r.percent_a[0].part, 2);
    assert_eq!(r.percent_c[0].part, 1);
    assert_eq!(r.percent_a[0].whole, 5);
    assert_eq!(r.percent_a[0].part + r.percent_t[0].part + r.percent_g[0].part
        + r.percent_c[0].part + r.n_content[0].part, 5);
    assert_eq!(r.percent_c[1].part + r.percent_g[1].part + r.n_content[1].part, 3);
    assert_eq!(r.percent_a[1].whole, 5);
    assert_eq!(r.n_content[2].part, 2);
    assert_eq!(r.n_content[2].whole, 2);
}

#[test]
fn overrepresented_sequences_are_ordered_by_count_then_text() {
    let r = run(vec![
        bare("TTTTTTTTTTAC"),
        bare("CCCCCCCCCCGG"),
        bare("GGGGGGGGGG"),
        bare("CCCCCCCCCCAA"),
        bare("AAAAATTTTTCC"),
        bare("ACGT"),
    ]);
    assert_eq!(r.total_reads, 6);
    let got: Vec<(String, usize)> = r
        .overrepresented_sequences
        .iter()
        .map(|e| (String::from_utf8_lossy(&e.sequence).into_owned(), e.count))
        .collect();
    assert_eq!(
        got,
        vec![
            (String::from("CCCCCCCCCC"), 2),
            (String::from("AAAAATTTTT"), 1),
            (String::from("GGGGGGGGGG"), 1),
            (String::from("TTTTTTTTTT"), 1),
        ]
    );
    let first = &r.overrepresented_sequences[0];
    assert_eq!(first.percentage.part, 2);
    assert_eq!(first.percentage.whole, 6);
    for pair in r.overrepresented_sequences.windows(2) {
        assert!(pair[0].count >= pair[1].count);
    }
}

#[test]
fn prefixes_are_kept_as_written() {
    let r = run(vec![bare("acgtacgtacGG"), bare("ACGTACGTACGG")]);
    assert_eq!(r.overrepresented_sequences.len(), 2);
    assert_eq!(r.overrepresented_sequences[0].sequence, b"ACGTACGTAC".to_vec());
    assert_eq!(r.overrepresented_sequences[1].sequence, b"acgtacgtac".to_vec());
}

#[test]
fn rare_prefixes_are_left_out() {
    let mut reads: Vec<Read> = Vec::new();
    for _ in 0..999 {
        reads.push(bare("ACGTACGTACGT"));
    }
    reads.push(bare("TTTTTTTTTTTT"));
    let r = run(reads.clone());
    assert_eq!(r.total_reads, 1000);
    assert_eq!(r.overrepresented_sequences.len(), 1);
    assert_eq!(r.overrepresented_sequences[0].count, 999);
    assert_eq!(r.overrepresented_sequences[0].sequence, b"ACGTACGTAC".to_vec());
    reads.remove(0);
    let r = run(reads);
    assert_eq!(r.total_reads, 999);
    assert_eq!(r.overrepresented_sequences.len(), 2);
    assert_eq!(r.overrepresented_sequences[1].count, 1);
    for e in r.overrepresented_sequences.iter() {
        assert!(percent(e.percentage.part, e.percentage.whole) > 0.1);
    }
}

#[test]
fn mode_is_the_lowest_of_the_most_frequent_lengths() {
    let r = run(vec![bare("AAAAA"), bare("AA"), bare("AAA"), bare("AAAAA"), bare("AA")]);
    assert_eq!(r.mode_length, 2);
    let r = run(vec![bare("AAAAA"), bare("AA"), bare("AAAAA"), bare("AA"), bare("AAAAA")]);
    assert_eq!(r.mode_length, 5);
    let r = run(vec![bare("AAA"), bare("A")]);
    assert_eq!(r.mode_length, 1);
}

#[test]
fn gc_percentage_is_rounded_half_away_from_zero() {
    let r = run(vec![bare("GAA"), bare("GCA"), bare("gA"), bare("GAAAAAAA"), bare("CTTTTTTTc")]);
    assert_eq!(r.gc_percent_histogram.len(), 5);
    assert_eq!(r.gc_percent_histogram[&33], 1);
    assert_eq!(r.gc_percent_histogram[&67], 1);
    assert_eq!(r.gc_percent_histogram[&50], 1);
    assert_eq!(r.gc_percent_histogram[&13], 1);
    assert_eq!(r.gc_percent_histogram[&22], 1);
    assert_eq!(r.gc_content.part, 7);
    assert_eq!(r.gc_content.whole, 25);
}

#[test]
fn mean_quality_is_rounded_per_read() {
    let r = run(vec![
        Read { bases: b"AC".to_vec(), qualities: vec![30, 31] },
        Read { bases: b"ACG".to_vec(), qualities: vec![10, 10, 11] },
        Read { bases: b"ACGT".to_vec(), qualities: vec![255, 255, 255, 255] },
        bare("ACGT"),
    ]);
    assert_eq!(r.per_sequence_quality_histogram.len(), 3);
    assert_eq!(r.per_sequence_quality_histogram[&31], 1);
    assert_eq!(r.per_sequence_quality_histogram[&10], 1);
    assert_eq!(r.per_sequence_quality_histogram[&255], 1);
    assert_eq!(r.qualities_per_position[0].num, 295);
    assert_eq!(r.qualities_per_position[0].den, 4);
    assert_eq!(r.qualities_per_position[2].num, 266);
    assert_eq!(r.qualities_per_position[2].den, 3);
    assert_eq!(r.qualities_per_position[3].num, 255);
    assert_eq!(r.qualities_per_position[3].den, 2);
}

#[test]
fn bases_are_classified_without_regard_to_case() {
    let r = run(vec![bare("atgcn"), bare("ATGCN")]);
    assert_eq!(r.percent_a[0].part, 2);
    assert_eq!(r.percent_t[1].part, 2);
    assert_eq!(r.percent_g[2].part, 2);
    assert_eq!(r.percent_c[3].part, 2);
    assert_eq!(r.n_content[4].part, 2);
    assert_eq!(r.percent_a[1].part, 0);
    assert_eq!(r.gc_content.part, 4);
}

#[test]
fn adding_reads_one_by_one_gives_the_same_report() {
    let reads = vec![read("ACGTACGTACGT", 33), bare(""), read("ACGTACGTACTT", 20), read("GG", 2)];
    let whole = run(reads.clone());
    let mut agg = Aggregator::new();
    for r in reads.iter() {
        assert!(agg.total_reads() < usize::MAX);
        agg.add_read(r);
    }
    assert_eq!(agg.total_reads(), 3);
    assert_eq!(agg.total_bases(), 26);
    assert_eq!(agg.max_length(), 12);
    let streamed = agg.finish(String::from("sample.fastq"));
    assert_eq!(streamed.total_reads, whole.total_reads);
    assert_eq!(streamed.avg_length.num, whole.avg_length.num);
    assert_eq!(streamed.mode_length, whole.mode_length);
    assert_eq!(streamed.read_length_histogram, whole.read_length_histogram);
    assert_eq!(streamed.overrepresented_sequences.len(), 1);
    assert_eq!(streamed.overrepresented_sequences[0].count, 2);
}

#[test]
fn two_runs_on_the_same_input_agree() {
    let reads = vec![
        read("TTTTTTTTTTAC", 12),
        read("CCCCCCCCCCGG", 40),
        read("GGGGGGGGGG", 7),
        read("acgtnACGTN", 9),
        read("AC", 1),
    ];
    let a = run(reads.clone());
    let b = run(reads);
    assert_eq!(a.total_reads, b.total_reads);
    assert_eq!((a.avg_length.num, a.avg_length.den), (b.avg_length.num, b.avg_length.den));
    assert_eq!((a.min_length, a.max_length, a.mode_length), (b.min_length, b.max_length, b.mode_length));
    assert_eq!((a.gc_content.part, a.gc_content.whole), (b.gc_content.part, b.gc_content.whole));
    assert_eq!(a.read_length_histogram, b.read_length_histogram);
    assert_eq!(a.gc_percent_histogram, b.gc_percent_histogram);
    assert_eq!(a.per_sequence_quality_histogram, b.per_sequence_quality_histogram);
    for i in 0..a.max_length {
        assert_eq!(a.percent_a[i].part, b.percent_a[i].part);
        assert_eq!(a.percent_t[i].part, b.percent_t[i].part);
        assert_eq!(a.percent_g[i].part, b.percent_g[i].part);
        assert_eq!(a.percent_c[i].part, b.percent_c[i].part);
        assert_eq!(a.n_content[i].part, b.n_content[i].part);
        assert_eq!(a.qualities_per_position[i].num, b.qualities_per_position[i].num);
    }
    let left: Vec<(Vec<u8>, usize)> =
        a.overrepresented_sequences.iter().map(|e| (e.sequence.clone(), e.count)).collect();
    let right: Vec<(Vec<u8>, usize)> =
        b.overrepresented_sequences.iter().map(|e| (e.sequence.clone(), e.count)).collect();
    assert_eq!(left, right);
    assert_eq!(left.len(), 4);
}

#[test]
fn progress_estimate_is_one_and_a_half_bytes_per_base() {
    assert_eq!(estimated_bytes(0, 100), 0);
    assert_eq!(estimated_bytes(10, 100), 15);
    assert_eq!(estimated_bytes(11, 100), 16);
    assert_eq!(estimated_bytes(66, 100), 99);
    assert_eq!(estimated_bytes(67, 100), 100);
    assert_eq!(estimated_bytes(1000, 100), 100);
    assert_eq!(estimated_bytes(u128::MAX, u64::MAX), u64::MAX);
    assert_eq!(estimated_bytes(5, 0), 0);
}

#[test]
fn only_the_html_name_selects_the_page() {
    let mut args = Args { input: String::from("in.fastq"), format: String::from("html"), output: None };
    assert_eq!(args.output_format(), Format::Html);
    args.format = String::from("json");
    assert_eq!(args.output_format(), Format::Json);
    args.format = String::from("HTML");
    assert_eq!(args.output_format(), Format::Json);
    args.format = String::from("markdown");
    assert_eq!(args.output_format(), Format::Json);
}

#[test]
fn ratios_are_rounded_half_away_from_zero() {
    assert_eq!(rustqc::read::round_div(0, 5), 0);
    assert_eq!(rustqc::read::round_div(1, 2), 1);
    assert_eq!(rustqc::read::round_div(5, 2), 3);
    assert_eq!(rustqc::read::round_div(7, 3), 2);
    assert_eq!(rustqc::read::round_div(8, 3), 3);
    assert_eq!(rustqc::read::round_div(1249, 100), 12);
    assert_eq!(rustqc::read::round_div(1250, 100), 13);
}

#[test]
fn upper_casing_touches_letters_only() {
    assert_eq!(rustqc::read::to_upper(b'a'), b'A');
    assert_eq!(rustqc::read::to_upper(b'z'), b'Z');
    assert_eq!(rustqc::read::to_upper(b'G'), b'G');
    assert_eq!(rustqc::read::to_upper(b'`'), b'`');
    assert_eq!(rustqc::read::to_upper(b'{'), b'{');
    assert_eq!(rustqc::read::to_upper(0), 0);
    assert_eq!(rustqc::read::to_upper(255), 255);
}

#[test]
fn gc_bases_are_counted_in_either_case() {
    assert_eq!(rustqc::read::count_gc(&b"GgCcATNn".to_vec()), 4);
    assert_eq!(rustqc::read::count_gc(&Vec::new()), 0);
    assert_eq!(rustqc::read::count_gc(&b"ATATNX".to_vec()), 0);
}

#[test]
fn only_scores_at_a_position_of_the_read_are_summed() {
    let longer = Read { bases: b"AC".to_vec(), qualities: vec![1, 2, 3] };
    assert_eq!(rustqc::read::quality_total(&longer), 3);
    let shorter = Read { bases: b"ACGT".to_vec(), qualities: vec![40, 2] };
    assert_eq!(rustqc::read::quality_total(&shorter), 42);
    assert_eq!(rustqc::read::quality_total(&bare("ACGT")), 0);
    let r = run(vec![shorter]);
    assert_eq!(r.per_sequence_quality_histogram[&11], 1);
    assert_eq!(r.qualities_per_position[1].num, 2);
    assert_eq!(r.qualities_per_position[2].num, 0);
    assert_eq!(r.qualities_per_position[2].den, 1);
}

#[test]
fn prefix_keys_order_as_the_prefixes_do() {
    let a = rustqc::read::prefix_key(&b"AAAAAAAAAAZZ".to_vec());
    let b = rustqc::read::prefix_key(&b"AAAAAAAAAC".to_vec());
    let c = rustqc::read::prefix_key(&b"CAAAAAAAAA".to_vec());
    assert!(a < b && b < c);
    assert_eq!(a, rustqc::read::prefix_key(&b"AAAAAAAAAA".to_vec()));
    assert_eq!(rustqc::read::prefix_key(&vec![0u8, 0, 0, 0, 0, 0, 0, 0, 1, 2]), 258);
    assert_eq!(rustqc::read::prefix_key(&vec![255u8; 10]), (1u128 << 80) - 1);
    assert_eq!(rustqc::read::prefix_of(&b"ACGTACGTACGTACGT".to_vec()), b"ACGTACGTAC".to_vec());
}

#[test]
fn a_slot_hands_out_the_count_of_each_symbol() {
    let s = rustqc::Slot { depth: 20, a: 1, t: 2, g: 3, c: 4, n: 5, quality: 600 };
    assert_eq!(s.count_of(b'A'), 1);
    assert_eq!(s.count_of(b'T'), 2);
    assert_eq!(s.count_of(b'G'), 3);
    assert_eq!(s.count_of(b'C'), 4);
    assert_eq!(s.count_of(b'N'), 5);
}
