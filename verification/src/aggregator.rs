use vstd::prelude::*;
use std::collections::HashMap;
use crate::read::{
    BASE_A, BASE_C, BASE_G, BASE_N, BASE_T, Read, count_gc, gc_count, lemma_gc_count_bound,
    lemma_pack_bound, lemma_rounded_ratio_bound, pack, prefix_key, prefix_of, quality_total,
    round_div, to_upper,
};
use crate::metric::{Metric, lemma_tally_push, lemma_tally_scaled, lemma_tally_witness, tally};
use crate::report::{
    Overrepresented, Percent, Ratio, Report, counts_gc_percents, counts_lengths,
    counts_mean_qualities, entry_counts, is_max_length, is_min_length, is_mode_length, is_ordered,
    is_quality_column, is_share_column, lists_overrepresented, precedes,
};

verus! {

broadcast use vstd::std_specs::hash::group_hash_axioms;

/// Running totals for one position of the reads.
#[derive(Clone, Copy, Debug)]
pub struct Slot {
    pub depth: usize,
    pub a: usize,
    pub t: usize,
    pub g: usize,
    pub c: usize,
    pub n: usize,
    pub quality: u128,
}

impl Slot {
    /// The slot holds the totals of position `i` over `reads`.
    pub open spec fn counts(&self, reads: Seq<Read>, i: nat) -> bool {
        &&& self.depth == tally(reads, Metric::Depth(i))
        &&& self.a == tally(reads, Metric::Symbol(i, BASE_A))
        &&& self.t == tally(reads, Metric::Symbol(i, BASE_T))
        &&& self.g == tally(reads, Metric::Symbol(i, BASE_G))
        &&& self.c == tally(reads, Metric::Symbol(i, BASE_C))
        &&& self.n == tally(reads, Metric::Symbol(i, BASE_N))
        &&& self.quality == tally(reads, Metric::QualitySum(i))
    }

    /// The slot's count of `symbol`, one of `A`, `T`, `G`, `C`; any other
    /// value asks for `N`.
    pub open spec fn of(&self, symbol: u8) -> usize {
        if symbol == BASE_A {
            self.a
        } else if symbol == BASE_T {
            self.t
        } else if symbol == BASE_G {
            self.g
        } else if symbol == BASE_C {
            self.c
        } else {
            self.n
        }
    }

    /// The slot's count of `symbol`, one of `A`, `T`, `G`, `C`; any other
    /// value asks for `N`.
    pub fn count_of(&self, symbol: u8) -> (n: usize)
        ensures
            n == self.of(symbol),
    {
        if symbol == BASE_A {
            self.a
        } else if symbol == BASE_T {
            self.t
        } else if symbol == BASE_G {
            self.g
        } else if symbol == BASE_C {
            self.c
        } else {
            self.n
        }
    }
}

/// There is one slot for each position that some read reaches, and each
/// holds the totals of its position.
pub open spec fn slots_match(slots: Seq<Slot>, reads: Seq<Read>) -> bool {
    &&& forall|i: int| 0 <= i < slots.len() ==> (#[trigger] slots[i]).counts(reads, i as nat)
    &&& forall|i: nat| i >= slots.len() ==> #[trigger] tally(reads, Metric::Depth(i)) == 0
    &&& slots.len() > 0 ==> tally(reads, Metric::Depth((slots.len() - 1) as nat)) > 0
}

/// `counts` maps the key of each ten-base prefix that starts a read to the
/// number of reads it starts, and holds no other key.
pub open spec fn counts_prefixes(counts: Map<u128, usize>, reads: Seq<Read>) -> bool {
    &&& forall|k: u128|
        counts.contains_key(k) <==> #[trigger] tally(reads, Metric::Prefix(k as nat)) > 0
    &&& forall|k: u128| #[trigger]
        counts.contains_key(k) ==> counts[k] == tally(reads, Metric::Prefix(k as nat))
}

/// `keys` lists the keys of `counts` once each, and `texts` the prefixes
/// themselves in the same order.
pub open spec fn lists_keys(counts: Map<u128, usize>, keys: Seq<u128>, texts: Seq<Vec<u8>>) -> bool {
    &&& keys.len() == texts.len()
    &&& forall|j: int|
        0 <= j < keys.len() ==> {
            &&& counts.contains_key(#[trigger] keys[j])
            &&& texts[j]@.len() == 10
            &&& pack(texts[j]@) == keys[j]
        }
    &&& forall|j: int, k: int| 0 <= j < k < keys.len() ==> keys[j] != keys[k]
    &&& forall|k: u128| #[trigger]
        counts.contains_key(k) ==> exists|j: int| 0 <= j < keys.len() && keys[j] == k
}

/// The table of prefixes holds the counts over `reads`.
pub open spec fn prefixes_match(
    counts: Map<u128, usize>,
    keys: Seq<u128>,
    texts: Seq<Vec<u8>>,
    reads: Seq<Read>,
) -> bool {
    counts_prefixes(counts, reads) && lists_keys(counts, keys, texts)
}

/// The count of a read's prefix goes up by one with the read, and no other.
proof fn lemma_prefix_counted(counts: Map<u128, usize>, before: Seq<Read>, read: Read, k: u128)
    requires
        counts_prefixes(counts, before),
        read.bases@.len() >= 10,
        k == read.prefix_key(),
        tally(before, Metric::Prefix(k as nat)) < usize::MAX,
    ensures
        counts_prefixes(
            counts.insert(
                k,
                if counts.contains_key(k) {
                    (counts[k] + 1) as usize
                } else {
                    1usize
                },
            ),
            before.push(read),
        ),
{
    let after = before.push(read);
    let next = counts.insert(
        k,
        if counts.contains_key(k) {
            (counts[k] + 1) as usize
        } else {
            1usize
        },
    );
    assert forall|x: u128|
        next.contains_key(x) <==> #[trigger] tally(after, Metric::Prefix(x as nat)) > 0 by {
        lemma_tally_push(before, read, Metric::Prefix(x as nat));
        assert(counts.contains_key(x) <==> tally(before, Metric::Prefix(x as nat)) > 0);
    }
    assert forall|x: u128| #[trigger] next.contains_key(x) implies next[x] == tally(
        after,
        Metric::Prefix(x as nat),
    ) by {
        lemma_tally_push(before, read, Metric::Prefix(x as nat));
        assert(counts.contains_key(x) <==> tally(before, Metric::Prefix(x as nat)) > 0);
    }
}

/// A read of fewer than ten bases changes no prefix count.
proof fn lemma_prefix_skipped(counts: Map<u128, usize>, before: Seq<Read>, read: Read)
    requires
        counts_prefixes(counts, before),
        read.bases@.len() < 10,
    ensures
        counts_prefixes(counts, before.push(read)),
{
    let after = before.push(read);
    assert forall|x: u128|
        counts.contains_key(x) <==> #[trigger] tally(after, Metric::Prefix(x as nat)) > 0 by {
        lemma_tally_push(before, read, Metric::Prefix(x as nat));
        assert(counts.contains_key(x) <==> tally(before, Metric::Prefix(x as nat)) > 0);
    }
    assert forall|x: u128| #[trigger] counts.contains_key(x) implies counts[x] == tally(
        after,
        Metric::Prefix(x as nat),
    ) by {
        lemma_tally_push(before, read, Metric::Prefix(x as nat));
    }
}

/// A new count for a listed key leaves the list of keys as it is.
proof fn lemma_keys_kept(
    counts: Map<u128, usize>,
    keys: Seq<u128>,
    texts: Seq<Vec<u8>>,
    k: u128,
    c: usize,
)
    requires
        lists_keys(counts, keys, texts),
        counts.contains_key(k),
    ensures
        lists_keys(counts.insert(k, c), keys, texts),
{
    let next = counts.insert(k, c);
    assert forall|j: int| 0 <= j < keys.len() implies next.contains_key(#[trigger] keys[j]) by {
        assert(counts.contains_key(keys[j]));
    }
    assert forall|x: u128| #[trigger] next.contains_key(x) implies exists|j: int|
        0 <= j < keys.len() && keys[j] == x by {
        assert(counts.contains_key(x));
    }
}

/// A key that was not counted before is listed last.
proof fn lemma_key_listed(
    counts: Map<u128, usize>,
    keys: Seq<u128>,
    texts: Seq<Vec<u8>>,
    k: u128,
    c: usize,
    text: Vec<u8>,
)
    requires
        lists_keys(counts, keys, texts),
        !counts.contains_key(k),
        text@.len() == 10,
        pack(text@) == k,
    ensures
        lists_keys(counts.insert(k, c), keys.push(k), texts.push(text)),
{
    let next = counts.insert(k, c);
    let listed = keys.push(k);
    let written = texts.push(text);
    let last = keys.len() as int;
    assert forall|j: int| 0 <= j < listed.len() implies {
        &&& next.contains_key(#[trigger] listed[j])
        &&& written[j]@.len() == 10
        &&& pack(written[j]@) == listed[j]
    } by {
        if j < last {
            assert(counts.contains_key(keys[j]));
            assert(listed[j] == keys[j]);
            assert(written[j] == texts[j]);
        }
    }
    assert forall|i: int, j: int| 0 <= i < j < listed.len() implies listed[i] != listed[j] by {
        assert(counts.contains_key(keys[i]));
        assert(listed[i] == keys[i]);
        if j < last {
            assert(listed[j] == keys[j]);
        }
    }
    assert forall|x: u128| #[trigger] next.contains_key(x) implies exists|j: int|
        0 <= j < listed.len() && listed[j] == x by {
        if x != k {
            assert(counts.contains_key(x));
            let j = choose|j: int| 0 <= j < keys.len() && keys[j] == x;
            assert(0 <= j < listed.len() && listed[j] == x);
        } else {
            assert(0 <= last < listed.len() && listed[last] == x);
        }
    }
}

/// Adds one to the count of `key`, and returns the new count.
fn bump_usize(map: &mut HashMap<usize, usize>, key: usize) -> (c: usize)
    requires
        old(map)@.contains_key(key) ==> old(map)@[key] < usize::MAX,
    ensures
        c == if old(map)@.contains_key(key) { old(map)@[key] + 1 } else { 1 },
        final(map)@ == old(map)@.insert(key, c),
{
    let c: usize = match map.get(&key) {
        Some(v) => *v + 1,
        None => 1,
    };
    map.insert(key, c);
    c
}

/// Adds one to the count of `key`.
fn bump_u8(map: &mut HashMap<u8, usize>, key: u8)
    requires
        old(map)@.contains_key(key) ==> old(map)@[key] < usize::MAX,
    ensures
        final(map)@ == old(map)@.insert(
            key,
            if old(map)@.contains_key(key) { (old(map)@[key] + 1) as usize } else { 1usize },
        ),
{
    let c: usize = match map.get(&key) {
        Some(v) => *v + 1,
        None => 1,
    };
    map.insert(key, c);
}

/// Makes room for a read of `len` bases: new slots start at zero.
fn grow_slots(slots: &mut Vec<Slot>, len: usize, Ghost(reads): Ghost<Seq<Read>>)
    requires
        slots_match(old(slots)@, reads),
    ensures
        final(slots)@.len() == if old(slots)@.len() < len { len as int } else { old(slots)@.len() as int },
        forall|i: int| 0 <= i < final(slots)@.len() ==> (#[trigger] final(slots)@[i]).counts(reads, i as nat),
{
    while slots.len() < len
        invariant
            old(slots)@.len() <= slots@.len(),
            slots@.len() <= len || slots@.len() == old(slots)@.len(),
            forall|i: nat| i >= old(slots)@.len() ==> #[trigger] tally(reads, Metric::Depth(i)) == 0,
            forall|i: int| 0 <= i < slots@.len() ==> (#[trigger] slots@[i]).counts(reads, i as nat),
        decreases len - slots.len(),
    {
        proof {
            let i = slots@.len() as nat;
            assert(tally(reads, Metric::Depth(i)) == 0);
            lemma_tally_scaled(reads, Metric::Symbol(i, BASE_A), Metric::Depth(i), 1);
            lemma_tally_scaled(reads, Metric::Symbol(i, BASE_T), Metric::Depth(i), 1);
            lemma_tally_scaled(reads, Metric::Symbol(i, BASE_G), Metric::Depth(i), 1);
            lemma_tally_scaled(reads, Metric::Symbol(i, BASE_C), Metric::Depth(i), 1);
            lemma_tally_scaled(reads, Metric::Symbol(i, BASE_N), Metric::Depth(i), 1);
            lemma_tally_scaled(reads, Metric::QualitySum(i), Metric::Depth(i), 255);
        }
        slots.push(Slot { depth: 0, a: 0, t: 0, g: 0, c: 0, n: 0, quality: 0 });
    }
}

/// Adds the bases and quality scores of `read` to the slots of their positions.
fn record_slots(slots: &mut Vec<Slot>, read: &Read, Ghost(before): Ghost<Seq<Read>>)
    requires
        slots_match(old(slots)@, before),
        tally(before, Metric::Reads) < usize::MAX,
    ensures
        slots_match(final(slots)@, before.push(*read)),
        final(slots)@.len() == if old(slots)@.len() < read.bases@.len() {
            read.bases@.len() as int
        } else {
            old(slots)@.len() as int
        },
{
    let len: usize = read.bases.len();
    let ghost after = before.push(*read);
    proof {
        assert(after.drop_last() =~= before);
        assert(after.last() == *read);
    }
    grow_slots(slots, len, Ghost(before));
    let mut i: usize = 0;
    while i < len
        invariant
            i <= len,
            len == read.bases@.len(),
            len <= slots@.len(),
            slots@.len() == if old(slots)@.len() < len { len as int } else { old(slots)@.len() as int },
            slots_match(old(slots)@, before),
            after == before.push(*read),
            after.drop_last() == before,
            after.last() == *read,
            tally(before, Metric::Reads) < usize::MAX,
            forall|j: int| 0 <= j < i ==> (#[trigger] slots@[j]).counts(after, j as nat),
            forall|j: int| i <= j < slots@.len() ==> (#[trigger] slots@[j]).counts(before, j as nat),
        decreases len - i,
    {
        let mut s: Slot = slots[i];
        proof {
            let p = i as nat;
            assert(s.counts(before, p));
            lemma_tally_scaled(before, Metric::Depth(p), Metric::Reads, 1);
            lemma_tally_scaled(before, Metric::Symbol(p, BASE_A), Metric::Depth(p), 1);
            lemma_tally_scaled(before, Metric::Symbol(p, BASE_T), Metric::Depth(p), 1);
            lemma_tally_scaled(before, Metric::Symbol(p, BASE_G), Metric::Depth(p), 1);
            lemma_tally_scaled(before, Metric::Symbol(p, BASE_C), Metric::Depth(p), 1);
            lemma_tally_scaled(before, Metric::Symbol(p, BASE_N), Metric::Depth(p), 1);
            lemma_tally_scaled(before, Metric::QualitySum(p), Metric::Depth(p), 255);
        }
        s.depth = s.depth + 1;
        let b: u8 = to_upper(read.bases[i]);
        if b == BASE_A {
            s.a = s.a + 1;
        } else if b == BASE_T {
            s.t = s.t + 1;
        } else if b == BASE_G {
            s.g = s.g + 1;
        } else if b == BASE_C {
            s.c = s.c + 1;
        } else if b == BASE_N {
            s.n = s.n + 1;
        }
        if i < read.qualities.len() {
            s.quality = s.quality + read.qualities[i] as u128;
        }
        slots.set(i, s);
        proof {
            let p = i as nat;
            lemma_tally_push(before, *read, Metric::Depth(p));
            lemma_tally_push(before, *read, Metric::Symbol(p, BASE_A));
            lemma_tally_push(before, *read, Metric::Symbol(p, BASE_T));
            lemma_tally_push(before, *read, Metric::Symbol(p, BASE_G));
            lemma_tally_push(before, *read, Metric::Symbol(p, BASE_C));
            lemma_tally_push(before, *read, Metric::Symbol(p, BASE_N));
            lemma_tally_push(before, *read, Metric::QualitySum(p));
            assert(slots@[i as int].counts(after, p));
        }
        i = i + 1;
    }
    proof {
        assert forall|j: int| 0 <= j < slots@.len() implies (#[trigger] slots@[j]).counts(
            after,
            j as nat,
        ) by {
            if j >= len {
                let p = j as nat;
                assert(slots@[j].counts(before, p));
                lemma_tally_push(before, *read, Metric::Depth(p));
                lemma_tally_push(before, *read, Metric::Symbol(p, BASE_A));
                lemma_tally_push(before, *read, Metric::Symbol(p, BASE_T));
                lemma_tally_push(before, *read, Metric::Symbol(p, BASE_G));
                lemma_tally_push(before, *read, Metric::Symbol(p, BASE_C));
                lemma_tally_push(before, *read, Metric::Symbol(p, BASE_N));
                lemma_tally_push(before, *read, Metric::QualitySum(p));
            }
        }
        assert forall|j: nat| j >= slots@.len() implies #[trigger] tally(after, Metric::Depth(j))
            == 0 by {
            assert(tally(before, Metric::Depth(j)) == 0);
            lemma_tally_push(before, *read, Metric::Depth(j));
        }
        if slots@.len() > 0 {
            lemma_tally_push(before, *read, Metric::Depth((slots@.len() - 1) as nat));
        }
    }
}

/// Counts the ten-base prefix of `read`, if it has one.
fn record_prefix(
    counts: &mut HashMap<u128, usize>,
    keys: &mut Vec<u128>,
    texts: &mut Vec<Vec<u8>>,
    read: &Read,
    Ghost(before): Ghost<Seq<Read>>,
)
    requires
        prefixes_match(old(counts)@, old(keys)@, old(texts)@, before),
        tally(before, Metric::Reads) < usize::MAX,
    ensures
        prefixes_match(final(counts)@, final(keys)@, final(texts)@, before.push(*read)),
{
    if read.bases.len() >= 10 {
        let k: u128 = prefix_key(&read.bases);
        proof {
            lemma_tally_scaled(before, Metric::Prefix(k as nat), Metric::Reads, 1);
            lemma_prefix_counted(counts@, before, *read, k);
        }
        let seen: Option<usize> = match counts.get(&k) {
            Some(v) => Some(*v),
            None => None,
        };
        match seen {
            Some(c) => {
                proof {
                    lemma_keys_kept(counts@, keys@, texts@, k, (c + 1) as usize);
                }
                counts.insert(k, c + 1);
            },
            None => {
                let text: Vec<u8> = prefix_of(&read.bases);
                proof {
                    lemma_key_listed(counts@, keys@, texts@, k, 1, text);
                }
                counts.insert(k, 1);
                keys.push(k);
                texts.push(text);
            },
        }
    } else {
        proof {
            lemma_prefix_skipped(counts@, before, *read);
        }
    }
}

/// Counts the rounded GC percentage of `read`, which has `gc` GC bases.
fn record_gc_percent(
    hist: &mut HashMap<u8, usize>,
    read: &Read,
    gc: usize,
    Ghost(before): Ghost<Seq<Read>>,
)
    requires
        counts_gc_percents(old(hist)@, before),
        tally(before, Metric::Reads) < usize::MAX,
        gc == gc_count(read.bases@),
    ensures
        counts_gc_percents(final(hist)@, before.push(*read)),
{
    let ghost after = before.push(*read);
    let len: usize = read.bases.len();
    if len > 0 {
        proof {
            lemma_gc_count_bound(read.bases@);
            lemma_rounded_ratio_bound(100 * (gc as nat), len as nat, 100);
        }
        let p: u128 = round_div(100 * (gc as u128), len);
        let p8: u8 = p as u8;
        proof {
            lemma_tally_scaled(before, Metric::GcPercent(p8 as nat), Metric::Reads, 1);
        }
        bump_u8(hist, p8);
    }
    proof {
        assert forall|x: u8|
            hist@.contains_key(x) <==> #[trigger] tally(after, Metric::GcPercent(x as nat))
                > 0 by {
            lemma_tally_push(before, *read, Metric::GcPercent(x as nat));
            assert(old(hist)@.contains_key(x) <==> tally(before, Metric::GcPercent(x as nat)) > 0);
        }
        assert forall|x: u8| #[trigger] hist@.contains_key(x) implies hist@[x] == tally(
            after,
            Metric::GcPercent(x as nat),
        ) by {
            lemma_tally_push(before, *read, Metric::GcPercent(x as nat));
            assert(old(hist)@.contains_key(x) <==> tally(before, Metric::GcPercent(x as nat)) > 0);
        }
    }
}

/// Counts the rounded mean quality of `read`, if it has quality scores.
fn record_mean_quality(hist: &mut HashMap<u8, usize>, read: &Read, Ghost(before): Ghost<Seq<Read>>)
    requires
        counts_mean_qualities(old(hist)@, before),
        tally(before, Metric::Reads) < usize::MAX,
    ensures
        counts_mean_qualities(final(hist)@, before.push(*read)),
{
    let ghost after = before.push(*read);
    let len: usize = read.bases.len();
    if len > 0 && read.qualities.len() > 0 {
        let total: u128 = quality_total(read);
        proof {
            lemma_rounded_ratio_bound(total as nat, len as nat, 255);
        }
        let q: u128 = round_div(total, len);
        let q8: u8 = q as u8;
        proof {
            lemma_tally_scaled(before, Metric::MeanQuality(q8 as nat), Metric::Reads, 1);
        }
        bump_u8(hist, q8);
    }
    proof {
        assert forall|x: u8|
            hist@.contains_key(x) <==> #[trigger] tally(after, Metric::MeanQuality(x as nat))
                > 0 by {
            lemma_tally_push(before, *read, Metric::MeanQuality(x as nat));
            assert(old(hist)@.contains_key(x) <==> tally(before, Metric::MeanQuality(x as nat))
                > 0);
        }
        assert forall|x: u8| #[trigger] hist@.contains_key(x) implies hist@[x] == tally(
            after,
            Metric::MeanQuality(x as nat),
        ) by {
            lemma_tally_push(before, *read, Metric::MeanQuality(x as nat));
            assert(old(hist)@.contains_key(x) <==> tally(before, Metric::MeanQuality(x as nat)) > 0);
        }
    }
}

/// Counts the length of `read` and keeps the least and the most frequent
/// length up to date.
fn record_length(
    hist: &mut HashMap<usize, usize>,
    min: &mut usize,
    mode: &mut usize,
    mode_count: &mut usize,
    read: &Read,
    first: bool,
    Ghost(before): Ghost<Seq<Read>>,
)
    requires
        counts_lengths(old(hist)@, before),
        is_min_length(before, *old(min) as nat),
        is_mode_length(before, *old(mode) as nat),
        *old(mode_count) == tally(before, Metric::Length(*old(mode) as nat)),
        first <==> tally(before, Metric::Reads) == 0,
        tally(before, Metric::Reads) < usize::MAX,
    ensures
        counts_lengths(final(hist)@, before.push(*read)),
        is_min_length(before.push(*read), *final(min) as nat),
        is_mode_length(before.push(*read), *final(mode) as nat),
        *final(mode_count) == tally(before.push(*read), Metric::Length(*final(mode) as nat)),
{
    let ghost after = before.push(*read);
    let len: usize = read.bases.len();
    if len > 0 {
        proof {
            lemma_tally_scaled(before, Metric::Length(len as nat), Metric::Reads, 1);
        }
        let c: usize = bump_usize(hist, len);
        if first || len < *min {
            *min = len;
        }
        if c > *mode_count || (c == *mode_count && len < *mode) {
            *mode = len;
            *mode_count = c;
        }
    }
    proof {
        lemma_tally_push(before, *read, Metric::Reads);
        lemma_tally_push(before, *read, Metric::Length(*min as nat));
        lemma_tally_push(before, *read, Metric::Length(*mode as nat));
        lemma_tally_push(before, *read, Metric::Length(*old(min) as nat));
        lemma_tally_push(before, *read, Metric::Length(*old(mode) as nat));
        assert forall|x: usize|
            hist@.contains_key(x) <==> #[trigger] tally(after, Metric::Length(x as nat)) > 0 by {
            lemma_tally_push(before, *read, Metric::Length(x as nat));
            assert(old(hist)@.contains_key(x) <==> tally(before, Metric::Length(x as nat)) > 0);
        }
        assert forall|x: usize| #[trigger] hist@.contains_key(x) implies hist@[x] == tally(
            after,
            Metric::Length(x as nat),
        ) by {
            lemma_tally_push(before, *read, Metric::Length(x as nat));
            assert(old(hist)@.contains_key(x) <==> tally(before, Metric::Length(x as nat)) > 0);
        }
        assert forall|l: nat| l < *min implies #[trigger] tally(after, Metric::Length(l)) == 0 by {
            lemma_tally_push(before, *read, Metric::Length(l));
            lemma_tally_scaled(before, Metric::Length(l), Metric::Reads, 1);
            assert(l < *old(min) ==> tally(before, Metric::Length(l)) == 0);
        }
        assert forall|l: nat| #[trigger]
            tally(after, Metric::Length(l)) <= tally(after, Metric::Length(*mode as nat)) by {
            lemma_tally_push(before, *read, Metric::Length(l));
            assert(tally(before, Metric::Length(l)) <= tally(
                before,
                Metric::Length(*old(mode) as nat),
            ));
        }
        assert forall|l: nat| l < *mode implies #[trigger] tally(after, Metric::Length(l)) < tally(
            after,
            Metric::Length(*mode as nat),
        ) by {
            lemma_tally_push(before, *read, Metric::Length(l));
            assert(tally(before, Metric::Length(l)) <= tally(
                before,
                Metric::Length(*old(mode) as nat),
            ));
            assert(l < *old(mode) ==> tally(before, Metric::Length(l)) < tally(
                before,
                Metric::Length(*old(mode) as nat),
            ));
        }
    }
}

/// The share of `symbol` at each position.
fn percent_column(slots: &Vec<Slot>, symbol: u8) -> (column: Vec<Percent>)
    ensures
        column@.len() == slots@.len(),
        forall|i: int|
            0 <= i < slots@.len() ==> (#[trigger] column@[i]).is(
                slots@[i].of(symbol) as nat,
                slots@[i].depth as nat,
            ),
{
    let mut column: Vec<Percent> = Vec::new();
    let mut i: usize = 0;
    while i < slots.len()
        invariant
            i <= slots@.len(),
            column@.len() == i,
            forall|j: int|
                0 <= j < i ==> (#[trigger] column@[j]).is(
                    slots@[j].of(symbol) as nat,
                    slots@[j].depth as nat,
                ),
        decreases slots.len() - i,
    {
        let s: Slot = slots[i];
        column.push(Percent { part: s.count_of(symbol) as u128, whole: s.depth as u128 });
        i = i + 1;
    }
    column
}

/// The mean quality at each position.
fn quality_column(slots: &Vec<Slot>) -> (column: Vec<Ratio>)
    ensures
        column@.len() == slots@.len(),
        forall|i: int|
            0 <= i < slots@.len() ==> (#[trigger] column@[i]).is(
                slots@[i].quality as nat,
                slots@[i].depth as nat,
            ),
{
    let mut column: Vec<Ratio> = Vec::new();
    let mut i: usize = 0;
    while i < slots.len()
        invariant
            i <= slots@.len(),
            column@.len() == i,
            forall|j: int|
                0 <= j < i ==> (#[trigger] column@[j]).is(
                    slots@[j].quality as nat,
                    slots@[j].depth as nat,
                ),
        decreases slots.len() - i,
    {
        let s: Slot = slots[i];
        column.push(Ratio { num: s.quality, den: s.depth as u128 });
        i = i + 1;
    }
    column
}

/// Where `entry` belongs in the ordered `list`.
fn insertion_point(list: &Vec<Overrepresented>, entry: &Overrepresented) -> (at: usize)
    requires
        entry.sequence@.len() == 10,
        forall|p: int| 0 <= p < list@.len() ==> (#[trigger] list@[p]).sequence@.len() == 10,
        forall|p: int|
            0 <= p < list@.len() ==> pack((#[trigger] list@[p]).sequence@) != pack(
                entry.sequence@,
            ),
        is_ordered(list@),
    ensures
        at <= list@.len(),
        forall|p: int| 0 <= p < at ==> precedes(#[trigger] list@[p], *entry),
        forall|p: int| at <= p < list@.len() ==> precedes(*entry, #[trigger] list@[p]),
{
    proof {
        assert(entry.sequence@.subrange(0, 10) =~= entry.sequence@);
    }
    let key: u128 = prefix_key(&entry.sequence);
    let mut at: usize = 0;
    while at < list.len()
        invariant
            at <= list@.len(),
            key == pack(entry.sequence@),
            forall|p: int| 0 <= p < list@.len() ==> (#[trigger] list@[p]).sequence@.len() == 10,
            forall|p: int|
                0 <= p < list@.len() ==> pack((#[trigger] list@[p]).sequence@) != pack(
                    entry.sequence@,
                ),
            is_ordered(list@),
            forall|p: int| 0 <= p < at ==> precedes(#[trigger] list@[p], *entry),
        decreases list.len() - at,
    {
        let e: &Overrepresented = &list[at];
        proof {
            assert(e.sequence@.subrange(0, 10) =~= e.sequence@);
        }
        let k: u128 = prefix_key(&e.sequence);
        if e.count > entry.count || (e.count == entry.count && k < key) {
            at = at + 1;
        } else {
            proof {
                let first = list@[at as int];
                assert(precedes(*entry, first));
                assert forall|p: int| at <= p < list@.len() implies precedes(
                    *entry,
                    #[trigger] list@[p],
                ) by {
                    if p > at {
                        assert(precedes(first, list@[p]));
                    }
                }
            }
            return at;
        }
    }
    at
}

/// Puts `entry` at its place in the ordered `list`.
fn insert_ordered(list: &mut Vec<Overrepresented>, entry: Overrepresented) -> (at: usize)
    requires
        entry.sequence@.len() == 10,
        forall|p: int|
            0 <= p < old(list)@.len() ==> (#[trigger] old(list)@[p]).sequence@.len() == 10,
        forall|p: int|
            0 <= p < old(list)@.len() ==> pack((#[trigger] old(list)@[p]).sequence@) != pack(
                entry.sequence@,
            ),
        is_ordered(old(list)@),
    ensures
        at <= old(list)@.len(),
        final(list)@ == old(list)@.insert(at as int, entry),
        is_ordered(final(list)@),
{
    let at: usize = insertion_point(list, &entry);
    let ghost prev = list@;
    list.insert(at, entry);
    proof {
        assert forall|p: int, q: int| 0 <= p < q < list@.len() implies precedes(
            #[trigger] list@[p],
            #[trigger] list@[q],
        ) by {
            if p < at {
                assert(list@[p] == prev[p]);
            } else if p > at {
                assert(list@[p] == prev[p - 1]);
            }
            if q < at {
                assert(list@[q] == prev[q]);
            } else if q > at {
                assert(list@[q] == prev[q - 1]);
            }
        }
    }
    at
}

/// Every entry of `list` up to `n` keys counts a prefix among `keys[..n]`,
/// and every prefix among them that is frequent enough has its entry.
pub open spec fn lists_first(
    list: Seq<Overrepresented>,
    counts: Map<u128, usize>,
    keys: Seq<u128>,
    n: int,
    reads: Seq<Read>,
) -> bool {
    &&& forall|p: int| 0 <= p < list.len() ==> entry_counts(#[trigger] list[p], reads)
    &&& forall|p: int|
        0 <= p < list.len() ==> exists|i: int|
            0 <= i < n && keys[i] == pack((#[trigger] list[p]).sequence@)
    &&& forall|i: int|
        0 <= i < n && 1000 * counts[#[trigger] keys[i]] > tally(reads, Metric::Reads)
            ==> exists|p: int|
            0 <= p < list.len() && pack((#[trigger] list[p]).sequence@) == keys[i]
}

/// An entry for the next key keeps the list complete.
proof fn lemma_lists_next(
    prev: Seq<Overrepresented>,
    at: int,
    entry: Overrepresented,
    counts: Map<u128, usize>,
    keys: Seq<u128>,
    n: int,
    reads: Seq<Read>,
)
    requires
        lists_first(prev, counts, keys, n, reads),
        0 <= n < keys.len(),
        0 <= at <= prev.len(),
        entry_counts(entry, reads),
        pack(entry.sequence@) == keys[n],
    ensures
        lists_first(prev.insert(at, entry), counts, keys, n + 1, reads),
{
    let list = prev.insert(at, entry);
    assert forall|p: int| 0 <= p < list.len() implies entry_counts(#[trigger] list[p], reads) by {
        if p < at {
            assert(list[p] == prev[p]);
        } else if p > at {
            assert(list[p] == prev[p - 1]);
        }
    }
    assert forall|p: int| 0 <= p < list.len() implies exists|i: int|
        0 <= i < n + 1 && keys[i] == pack((#[trigger] list[p]).sequence@) by {
        if p < at {
            assert(list[p] == prev[p]);
            let i = choose|i: int| 0 <= i < n && keys[i] == pack(prev[p].sequence@);
            assert(0 <= i < n + 1 && keys[i] == pack(list[p].sequence@));
        } else if p > at {
            assert(list[p] == prev[p - 1]);
            let i = choose|i: int| 0 <= i < n && keys[i] == pack(prev[p - 1].sequence@);
            assert(0 <= i < n + 1 && keys[i] == pack(list[p].sequence@));
        } else {
            assert(0 <= n < n + 1 && keys[n] == pack(list[p].sequence@));
        }
    }
    assert forall|i: int|
        0 <= i < n + 1 && 1000 * counts[#[trigger] keys[i]] > tally(
            reads,
            Metric::Reads,
        ) implies exists|p: int|
        0 <= p < list.len() && pack((#[trigger] list[p]).sequence@) == keys[i] by {
        if i < n {
            let p = choose|p: int|
                0 <= p < prev.len() && pack((#[trigger] prev[p]).sequence@) == keys[i];
            if p < at {
                assert(list[p] == prev[p]);
                assert(0 <= p < list.len() && pack(list[p].sequence@) == keys[i]);
            } else {
                assert(list[p + 1] == prev[p]);
                assert(0 <= p + 1 < list.len() && pack(list[p + 1].sequence@) == keys[i]);
            }
        } else {
            assert(list[at] == entry);
            assert(0 <= at < list.len() && pack(list[at].sequence@) == keys[i]);
        }
    }
}

/// The prefixes that start more than one read in a thousand, most frequent first.
fn list_overrepresented(
    counts: &HashMap<u128, usize>,
    keys: &Vec<u128>,
    texts: &Vec<Vec<u8>>,
    total_reads: usize,
    Ghost(reads): Ghost<Seq<Read>>,
) -> (list: Vec<Overrepresented>)
    requires
        prefixes_match(counts@, keys@, texts@, reads),
        total_reads == tally(reads, Metric::Reads),
    ensures
        lists_overrepresented(list@, reads),
{
    let mut list: Vec<Overrepresented> = Vec::new();
    let mut j: usize = 0;
    while j < keys.len()
        invariant
            j <= keys@.len(),
            prefixes_match(counts@, keys@, texts@, reads),
            total_reads == tally(reads, Metric::Reads),
            is_ordered(list@),
            lists_first(list@, counts@, keys@, j as int, reads),
        decreases keys.len() - j,
    {
        let k: u128 = keys[j];
        proof {
            assert(counts@.contains_key(keys@[j as int]));
        }
        let c: usize = match counts.get(&k) {
            Some(v) => *v,
            None => 0,
        };
        let ghost prev = list@;
        if 1000 * (c as u128) > total_reads as u128 {
            proof {
                assert(texts@[j as int]@.subrange(0, 10) =~= texts@[j as int]@);
                assert forall|p: int| 0 <= p < list@.len() implies pack(
                    (#[trigger] list@[p]).sequence@,
                ) != k by {
                    let i = choose|i: int| 0 <= i < j && keys@[i] == pack(list@[p].sequence@);
                    assert(keys@[i] != keys@[j as int]);
                }
                assert forall|p: int| 0 <= p < list@.len() implies (#[trigger] list@[p]).sequence@.len()
                    == 10 by {
                    assert(entry_counts(list@[p], reads));
                }
            }
            let entry = Overrepresented {
                sequence: prefix_of(&texts[j]),
                percentage: Percent { part: c as u128, whole: total_reads as u128 },
                count: c,
            };
            proof {
                assert(entry.sequence@ == texts@[j as int]@);
                assert(entry_counts(entry, reads));
            }
            let ghost added = entry;
            let at: usize = insert_ordered(&mut list, entry);
            proof {
                lemma_lists_next(prev, at as int, added, counts@, keys@, j as int, reads);
            }
        } else {
            proof {
                assert(lists_first(list@, counts@, keys@, j + 1, reads));
            }
        }
        j = j + 1;
    }
    proof {
        assert forall|key: nat|
            1000 * #[trigger] tally(reads, Metric::Prefix(key)) > tally(
                reads,
                Metric::Reads,
            ) implies exists|p: int|
            0 <= p < list@.len() && pack(#[trigger] list@[p].sequence@) == key by {
            let w = lemma_tally_witness(reads, Metric::Prefix(key));
            assert(key == reads[w].prefix_key());
            lemma_pack_bound(reads[w].bases@.subrange(0, 10));
            let k = key as u128;
            assert(tally(reads, Metric::Prefix(k as nat)) > 0);
            assert(counts@.contains_key(k));
            let i = choose|i: int| 0 <= i < keys@.len() && keys@[i] == k;
            assert(1000 * counts@[keys@[i]] > total_reads);
        }
    }
    list
}

/// The running totals of a stream of reads.
pub struct Aggregator {
    history: Ghost<Seq<Read>>,
    total_reads: usize,
    total_bases: u128,
    total_gc: u128,
    min_length: usize,
    mode_length: usize,
    mode_count: usize,
    lengths: HashMap<usize, usize>,
    gc_percents: HashMap<u8, usize>,
    mean_qualities: HashMap<u8, usize>,
    slots: Vec<Slot>,
    prefix_counts: HashMap<u128, usize>,
    prefix_keys: Vec<u128>,
    prefix_texts: Vec<Vec<u8>>,
}

impl View for Aggregator {
    type V = Seq<Read>;

    /// The reads added so far, in order.
    closed spec fn view(&self) -> Seq<Read> {
        self.history@
    }
}

impl Aggregator {
    /// Every total is the tally of its metric over the reads added so far.
    pub closed spec fn wf(&self) -> bool {
        let h = self.history@;
        &&& self.total_reads == tally(h, Metric::Reads)
        &&& self.total_bases == tally(h, Metric::Bases)
        &&& self.total_gc == tally(h, Metric::GcBases)
        &&& self.total_bases <= 0xFFFF_FFFF_FFFF_FFFF * self.total_reads
        &&& self.total_gc <= self.total_bases
        &&& is_min_length(h, self.min_length as nat)
        &&& is_mode_length(h, self.mode_length as nat)
        &&& self.mode_count == tally(h, Metric::Length(self.mode_length as nat))
        &&& counts_lengths(self.lengths@, h)
        &&& counts_gc_percents(self.gc_percents@, h)
        &&& counts_mean_qualities(self.mean_qualities@, h)
        &&& slots_match(self.slots@, h)
        &&& prefixes_match(self.prefix_counts@, self.prefix_keys@, self.prefix_texts@, h)
    }

    /// An aggregator that has seen no read.
    pub fn new() -> (agg: Aggregator)
        ensures
            agg.wf(),
            agg@ == Seq::<Read>::empty(),
    {
        Aggregator {
            history: Ghost(Seq::empty()),
            total_reads: 0,
            total_bases: 0,
            total_gc: 0,
            min_length: 0,
            mode_length: 0,
            mode_count: 0,
            lengths: HashMap::new(),
            gc_percents: HashMap::new(),
            mean_qualities: HashMap::new(),
            slots: Vec::new(),
            prefix_counts: HashMap::new(),
            prefix_keys: Vec::new(),
            prefix_texts: Vec::new(),
        }
    }

    /// Number of reads with bases added so far.
    pub fn total_reads(&self) -> (n: usize)
        requires
            self.wf(),
        ensures
            n == tally(self@, Metric::Reads),
    {
        self.total_reads
    }

    /// Adds one read to every total. A read without bases changes none.
    /// The count of reads must not have reached the largest `usize` yet.
    pub fn add_read(&mut self, read: &Read)
        requires
            old(self).wf(),
            tally(old(self)@, Metric::Reads) < usize::MAX,
        ensures
            final(self).wf(),
            final(self)@ == old(self)@.push(*read),
    {
        let ghost before = self.history@;
        let ghost after = before.push(*read);
        proof {
            lemma_tally_push(before, *read, Metric::Reads);
            lemma_tally_push(before, *read, Metric::Bases);
            lemma_tally_push(before, *read, Metric::GcBases);
        }
        let len: usize = read.bases.len();
        let first: bool = self.total_reads == 0;
        let gc: usize = count_gc(&read.bases);
        proof {
            lemma_gc_count_bound(read.bases@);
        }
        record_length(
            &mut self.lengths,
            &mut self.min_length,
            &mut self.mode_length,
            &mut self.mode_count,
            read,
            first,
            Ghost(before),
        );
        record_gc_percent(&mut self.gc_percents, read, gc, Ghost(before));
        record_mean_quality(&mut self.mean_qualities, read, Ghost(before));
        record_slots(&mut self.slots, read, Ghost(before));
        record_prefix(
            &mut self.prefix_counts,
            &mut self.prefix_keys,
            &mut self.prefix_texts,
            read,
            Ghost(before),
        );
        if len > 0 {
            self.total_reads = self.total_reads + 1;
            self.total_bases = self.total_bases + len as u128;
            self.total_gc = self.total_gc + gc as u128;
        }
        self.history = Ghost(after);
    }

    /// Number of bases added so far.
    pub fn total_bases(&self) -> (n: u128)
        requires
            self.wf(),
        ensures
            n == tally(self@, Metric::Bases),
    {
        self.total_bases
    }

    /// Length of the longest read added so far, which is the number of
    /// positions that totals are kept for.
    pub fn max_length(&self) -> (n: usize)
        requires
            self.wf(),
        ensures
            is_max_length(self@, n as nat),
    {
        self.slots.len()
    }

    /// Turns the totals into the report on the reads added so far.
    pub fn finish(self, filename: String) -> (report: Report)
        requires
            self.wf(),
        ensures
            report.describes(self@),
            report.filename@ == filename@,
    {
        let ghost reads = self.history@;
        let overrepresented: Vec<Overrepresented> = list_overrepresented(
            &self.prefix_counts,
            &self.prefix_keys,
            &self.prefix_texts,
            self.total_reads,
            Ghost(reads),
        );
        let qualities: Vec<Ratio> = quality_column(&self.slots);
        let percent_a: Vec<Percent> = percent_column(&self.slots, BASE_A);
        let percent_t: Vec<Percent> = percent_column(&self.slots, BASE_T);
        let percent_g: Vec<Percent> = percent_column(&self.slots, BASE_G);
        let percent_c: Vec<Percent> = percent_column(&self.slots, BASE_C);
        let n_content: Vec<Percent> = percent_column(&self.slots, BASE_N);
        let max_length: usize = self.slots.len();
        proof {
            assert forall|i: int| 0 <= i < max_length implies (#[trigger] self.slots@[i]).counts(
                reads,
                i as nat,
            ) by {}
            assert(is_quality_column(qualities@, reads));
            assert(is_share_column(percent_a@, reads, BASE_A));
            assert(is_share_column(percent_t@, reads, BASE_T));
            assert(is_share_column(percent_g@, reads, BASE_G));
            assert(is_share_column(percent_c@, reads, BASE_C));
            assert(is_share_column(n_content@, reads, BASE_N));
        }
        Report {
            filename,
            total_reads: self.total_reads,
            avg_length: Ratio { num: self.total_bases, den: self.total_reads as u128 },
            min_length: self.min_length,
            max_length,
            mode_length: self.mode_length,
            gc_content: Percent { part: self.total_gc, whole: self.total_bases },
            qualities_per_position: qualities,
            read_length_histogram: self.lengths,
            gc_percent_histogram: self.gc_percents,
            percent_a,
            percent_t,
            percent_g,
            percent_c,
            per_sequence_quality_histogram: self.mean_qualities,
            n_content,
            overrepresented_sequences: overrepresented,
        }
    }
}

} // verus!
