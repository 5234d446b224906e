use vstd::prelude::*;

verus! {

/// Number of leading bases that identify a read when looking for
/// overrepresented sequences.
pub const PREFIX_LEN: usize = 10;

/// The symbols that are counted at each position, in upper case.
pub const BASE_A: u8 = 65;

pub const BASE_T: u8 = 84;

pub const BASE_G: u8 = 71;

pub const BASE_C: u8 = 67;

pub const BASE_N: u8 = 78;

/// One sequencing read: its bases and, where known, one quality score per base.
#[derive(Clone, Debug)]
pub struct Read {
    pub bases: Vec<u8>,
    pub qualities: Vec<u8>,
}

/// `G` or `C`, in either case.
pub open spec fn is_gc(b: u8) -> bool {
    upper(b) == BASE_G || upper(b) == BASE_C
}

/// ASCII upper-casing of one byte.
pub open spec fn upper(b: u8) -> u8 {
    if 97 <= b && b <= 122 {
        (b - 32) as u8
    } else {
        b
    }
}

/// Number of `G`/`C` bases in `s`.
pub open spec fn gc_count(s: Seq<u8>) -> nat
    decreases s.len(),
{
    if s.len() == 0 {
        0
    } else {
        gc_count(s.drop_last()) + if is_gc(s.last()) { 1nat } else { 0nat }
    }
}

/// Sum of the first `n` entries of `q`.
pub open spec fn sum_prefix(q: Seq<u8>, n: nat) -> nat
    decreases n,
{
    if n == 0 {
        0
    } else {
        sum_prefix(q, (n - 1) as nat) + q[n - 1] as nat
    }
}

/// `num / den` rounded to the nearest integer, halves away from zero.
pub open spec fn rounded_ratio(num: nat, den: nat) -> nat
    recommends
        den > 0,
{
    (2 * num + den) / (2 * den)
}

/// The ten bytes of `s` read as one big-endian number, so that numeric order
/// on keys is lexicographic order on sequences.
#[verifier::opaque]
pub open spec fn pack(s: Seq<u8>) -> nat
    recommends
        s.len() == 10,
{
    (((((((((s[0] as nat * 256 + s[1] as nat) * 256 + s[2] as nat) * 256 + s[3] as nat) * 256
        + s[4] as nat) * 256 + s[5] as nat) * 256 + s[6] as nat) * 256 + s[7] as nat) * 256
        + s[8] as nat) * 256 + s[9] as nat)
}

impl Read {
    pub open spec fn len(&self) -> nat {
        self.bases@.len()
    }

    /// Number of positions that carry both a base and a quality score.
    pub open spec fn scored(&self) -> nat {
        if self.qualities@.len() < self.bases@.len() {
            self.qualities@.len()
        } else {
            self.bases@.len()
        }
    }

    /// Sum of the quality scores that stand at a position of the read.
    pub open spec fn quality_total(&self) -> nat {
        sum_prefix(self.qualities@, self.scored())
    }

    /// GC share of the read in percent, rounded.
    pub open spec fn gc_percent(&self) -> nat
        recommends
            self.len() > 0,
    {
        rounded_ratio(100 * gc_count(self.bases@), self.len())
    }

    /// Mean quality of the read, rounded.
    pub open spec fn mean_quality(&self) -> nat
        recommends
            self.len() > 0,
    {
        rounded_ratio(self.quality_total(), self.len())
    }

    /// Key of the read's first ten bases.
    pub open spec fn prefix_key(&self) -> nat
        recommends
            self.len() >= 10,
    {
        pack(self.bases@.subrange(0, 10))
    }
}

pub proof fn lemma_gc_count_bound(s: Seq<u8>)
    ensures
        gc_count(s) <= s.len(),
    decreases s.len(),
{
    if s.len() > 0 {
        lemma_gc_count_bound(s.drop_last());
    }
}

/// A key takes ten bytes.
pub proof fn lemma_pack_bound(s: Seq<u8>)
    ensures
        pack(s) < 0x1_0000_0000_0000_0000_0000,
{
    reveal(pack);
}

/// A rounded ratio never exceeds a bound that the exact ratio respects.
pub proof fn lemma_rounded_ratio_bound(num: nat, den: nat, bound: nat)
    requires
        den > 0,
        num <= bound * den,
    ensures
        rounded_ratio(num, den) <= bound,
{
    assert((2 * num + den) / (2 * den) <= bound) by (nonlinear_arith)
        requires
            den > 0,
            num <= bound * den,
    ;
}

/// ASCII upper-casing of one byte.
pub fn to_upper(b: u8) -> (r: u8)
    ensures
        r == upper(b),
{
    if 97 <= b && b <= 122 {
        b - 32
    } else {
        b
    }
}

/// Counts the `G`/`C` bases of a read, in either case.
pub fn count_gc(bases: &Vec<u8>) -> (n: usize)
    ensures
        n == gc_count(bases@),
{
    let mut n: usize = 0;
    let mut i: usize = 0;
    while i < bases.len()
        invariant
            i <= bases.len(),
            n == gc_count(bases@.take(i as int)),
            n <= i,
        decreases bases.len() - i,
    {
        let b: u8 = bases[i];
        proof {
            assert(bases@.take(i + 1).drop_last() =~= bases@.take(i as int));
        }
        let u: u8 = to_upper(b);
        if u == BASE_G || u == BASE_C {
            n = n + 1;
        }
        i = i + 1;
    }
    proof {
        assert(bases@.take(i as int) =~= bases@);
    }
    n
}

/// Rounds `num / den` to the nearest integer, halves away from zero.
pub fn round_div(num: u128, den: usize) -> (r: u128)
    requires
        den > 0,
        2 * num + den <= u128::MAX,
    ensures
        r == rounded_ratio(num as nat, den as nat),
{
    let d: u128 = den as u128;
    (2 * num + d) / (2 * d)
}

/// Sums the quality scores that stand at a position of the read.
pub fn quality_total(read: &Read) -> (s: u128)
    ensures
        s == read.quality_total(),
        s <= 255 * read.scored(),
{
    let n: usize = if read.qualities.len() < read.bases.len() {
        read.qualities.len()
    } else {
        read.bases.len()
    };
    let mut s: u128 = 0;
    let mut i: usize = 0;
    while i < n
        invariant
            i <= n,
            n == read.scored(),
            n <= read.qualities@.len(),
            s == sum_prefix(read.qualities@, i as nat),
            s <= 255 * i,
        decreases n - i,
    {
        s = s + read.qualities[i] as u128;
        i = i + 1;
    }
    s
}

/// Packs the first ten bases of a read into its key.
pub fn prefix_key(bases: &Vec<u8>) -> (k: u128)
    requires
        bases@.len() >= 10,
    ensures
        k == pack(bases@.subrange(0, 10)),
{
    proof {
        reveal(pack);
    }
    let mut k: u128 = bases[0] as u128;
    k = k * 256 + bases[1] as u128;
    k = k * 256 + bases[2] as u128;
    k = k * 256 + bases[3] as u128;
    k = k * 256 + bases[4] as u128;
    k = k * 256 + bases[5] as u128;
    k = k * 256 + bases[6] as u128;
    k = k * 256 + bases[7] as u128;
    k = k * 256 + bases[8] as u128;
    k = k * 256 + bases[9] as u128;
    k
}


/// Copies the first ten bases of a read.
pub fn prefix_of(bases: &Vec<u8>) -> (p: Vec<u8>)
    requires
        bases@.len() >= 10,
    ensures
        p@ == bases@.subrange(0, 10),
{
    let mut p: Vec<u8> = Vec::new();
    let mut i: usize = 0;
    while i < PREFIX_LEN
        invariant
            i <= 10,
            bases@.len() >= 10,
            p@ == bases@.subrange(0, i as int),
        decreases 10 - i,
    {
        p.push(bases[i]);
        i = i + 1;
        proof {
            assert(p@ =~= bases@.subrange(0, i as int));
        }
    }
    p
}

} // verus!
