//! The operational chunk-index algorithm: hashing-trick vectorization of
//! line batches and nearest-neighbour dissimilarity, in integer arithmetic.
//!
//! A line is tokenized (digits masked), split into space-separated words,
//! and every word is hashed into one of `BUCKETS` counting buckets; the
//! bucket counts are the line's feature vector. The distance between two
//! vectors is their scaled L1 distance, `0` for identical lines and
//! `DISTANCE_SCALE` for lines with no bucket in common.

use vstd::prelude::*;
use crate::source::is_digit;

verus! {

/// Number of hash buckets in a feature vector.
pub const BUCKETS: usize = 64;

/// A distance of `DISTANCE_SCALE` means complete dissimilarity.
pub const DISTANCE_SCALE: u32 = 1000;

// ---------------------------------------------------------------------------
// Tokenization
// ---------------------------------------------------------------------------

/// The hashing tokenizer masks every digit, so lines differing only in
/// numbers (timestamps, counters, addresses) compare as equal.
pub open spec fn tok_of(line: Seq<char>) -> Seq<char> {
    line.map_values(|c: char| if is_digit(c) { '0' } else { c })
}

/// Canonicalizes one raw line prior to indexing or comparison.
pub fn tokenize(line: &str) -> (r: String)
    ensures
        r@ == tok_of(line@),
{
    let n = line.unicode_len();
    let mut out = String::new();
    proof {
        assert(out@ =~= tok_of(line@.subrange(0, 0)));
    }
    let mut i: usize = 0;
    while i < n
        invariant
            i <= n,
            n == line@.len(),
            out@ == tok_of(line@.subrange(0, i as int)),
        decreases n - i,
    {
        let c = line.get_char(i);
        let v = c as u32;
        if 48 <= v && v <= 57 {
            crate::source::push_char(&mut out, '0');
        } else {
            crate::source::push_char(&mut out, c);
        }
        proof {
            assert(out@ =~= tok_of(line@.subrange(0, i + 1)));
        }
        i += 1;
    }
    proof {
        assert(line@.subrange(0, n as int) =~= line@);
    }
    out
}

// ---------------------------------------------------------------------------
// Vectorization
// ---------------------------------------------------------------------------

/// A saturating counter: bucket counts never overflow.
pub open spec fn sat_inc(x: u32) -> u32 {
    if x == 0xFFFF_FFFFu32 {
        x
    } else {
        (x + 1) as u32
    }
}

pub open spec fn zero_counts() -> Seq<u32> {
    Seq::new(BUCKETS as nat, |i: int| 0u32)
}

pub open spec fn bump(counts: Seq<u32>, b: int) -> Seq<u32> {
    counts.update(b, sat_inc(counts[b]))
}

/// One scan step folds a character into the running word hash; a space
/// commits the pending word, if any, into its bucket.
pub open spec fn scan(s: Seq<char>) -> (Seq<u32>, int, bool)
    decreases s.len(),
{
    if s.len() == 0 {
        (zero_counts(), 5381int, false)
    } else {
        let (counts, h, inw) = scan(s.drop_last());
        let c = s.last();
        if c == ' ' {
            if inw {
                (bump(counts, h % BUCKETS as int), 5381int, false)
            } else {
                (counts, 5381int, false)
            }
        } else {
            (counts, (h * 33 + c as u32) % 0x1_0000_0000, true)
        }
    }
}

/// The feature vector of one (tokenized) line: word counts by hash bucket.
pub open spec fn line_vec(s: Seq<char>) -> Seq<u32> {
    let (counts, h, inw) = scan(s);
    if inw {
        bump(counts, h % BUCKETS as int)
    } else {
        counts
    }
}

proof fn lemma_scan_bounds(s: Seq<char>)
    ensures
        scan(s).0.len() == BUCKETS as int,
        0 <= scan(s).1 < 0x1_0000_0000,
    decreases s.len(),
{
    if s.len() > 0 {
        lemma_scan_bounds(s.drop_last());
    }
}

pub proof fn lemma_line_vec_len(s: Seq<char>)
    ensures
        line_vec(s).len() == BUCKETS as int,
{
    lemma_scan_bounds(s);
}

/// Computes the feature vector of one line.
pub fn vectorize_line(line: &str) -> (r: Vec<u32>)
    ensures
        r@ == line_vec(line@),
        r@.len() == BUCKETS as int,
{
    let n = line.unicode_len();
    let mut counts: Vec<u32> = Vec::new();
    let mut z: usize = 0;
    while z < BUCKETS
        invariant
            z <= BUCKETS,
            counts@.len() == z,
            forall|j: int| 0 <= j < z ==> counts@[j] == 0u32,
        decreases BUCKETS - z,
    {
        counts.push(0u32);
        z += 1;
    }
    proof {
        assert(counts@ =~= zero_counts());
    }
    let mut h: u64 = 5381;
    let mut inw: bool = false;
    proof {
        assert(line@.subrange(0, 0) =~= Seq::<char>::empty());
    }
    let mut i: usize = 0;
    while i < n
        invariant
            i <= n,
            n == line@.len(),
            counts@.len() == BUCKETS as int,
            h < 0x1_0000_0000,
            (counts@, h as int, inw) == scan(line@.subrange(0, i as int)),
        decreases n - i,
    {
        let c = line.get_char(i);
        proof {
            assert(line@.subrange(0, i + 1).drop_last() =~= line@.subrange(0, i as int));
            assert(line@.subrange(0, i + 1).last() == c);
        }
        if c == ' ' {
            if inw {
                let b = (h % BUCKETS as u64) as usize;
                let old_count = counts[b];
                let bumped = if old_count == 0xFFFF_FFFFu32 {
                    old_count
                } else {
                    old_count + 1
                };
                counts.set(b, bumped);
                proof {
                    assert(counts@ =~= scan(line@.subrange(0, i + 1)).0);
                }
                h = 5381;
                inw = false;
            }
        } else {
            h = (h * 33 + (c as u32) as u64) % 0x1_0000_0000;
            inw = true;
        }
        i += 1;
    }
    proof {
        assert(line@.subrange(0, n as int) =~= line@);
    }
    if inw {
        let b = (h % BUCKETS as u64) as usize;
        let old_count = counts[b];
        let bumped = if old_count == 0xFFFF_FFFFu32 {
            old_count
        } else {
            old_count + 1
        };
        counts.set(b, bumped);
        proof {
            assert(counts@ =~= line_vec(line@));
        }
    }
    counts
}

// ---------------------------------------------------------------------------
// Distances
// ---------------------------------------------------------------------------

pub open spec fn sum_of(v: Seq<u32>) -> int
    decreases v.len(),
{
    if v.len() == 0 {
        0
    } else {
        sum_of(v.drop_last()) + v.last()
    }
}

pub open spec fn absdiff(a: int, b: int) -> int {
    if a >= b {
        a - b
    } else {
        b - a
    }
}

pub open spec fn diff_of(a: Seq<u32>, b: Seq<u32>) -> int
    decreases a.len(),
{
    if a.len() == 0 || b.len() == 0 {
        0
    } else {
        diff_of(a.drop_last(), b.drop_last()) + absdiff(a.last() as int, b.last() as int)
    }
}

/// Scaled L1 distance between two equal-width vectors: `0` when both are
/// empty of words, up to `DISTANCE_SCALE` when they share no weight.
pub open spec fn dist_of(a: Seq<u32>, b: Seq<u32>) -> int {
    let s = sum_of(a) + sum_of(b);
    if s == 0 {
        0
    } else {
        DISTANCE_SCALE as int * diff_of(a, b) / s
    }
}

proof fn lemma_sum_bounds(v: Seq<u32>)
    ensures
        0 <= sum_of(v) <= v.len() * 0xFFFF_FFFF,
    decreases v.len(),
{
    if v.len() > 0 {
        lemma_sum_bounds(v.drop_last());
        assert((v.len() - 1) * 0xFFFF_FFFF == v.len() * 0xFFFF_FFFF - 0xFFFF_FFFF)
            by (nonlinear_arith);
    }
}

proof fn lemma_diff_le_sum(a: Seq<u32>, b: Seq<u32>)
    requires
        a.len() == b.len(),
    ensures
        0 <= diff_of(a, b) <= sum_of(a) + sum_of(b),
    decreases a.len(),
{
    if a.len() > 0 {
        lemma_diff_le_sum(a.drop_last(), b.drop_last());
    }
}

/// The scaled distance never exceeds `DISTANCE_SCALE`.
pub proof fn lemma_dist_bounds(a: Seq<u32>, b: Seq<u32>)
    requires
        a.len() == b.len(),
    ensures
        0 <= dist_of(a, b) <= DISTANCE_SCALE as int,
{
    lemma_diff_le_sum(a, b);
    let s = sum_of(a) + sum_of(b);
    if s != 0 {
        assert(DISTANCE_SCALE as int * diff_of(a, b) <= DISTANCE_SCALE as int * s)
            by (nonlinear_arith)
            requires
                diff_of(a, b) <= s,
                0 <= diff_of(a, b),
                s > 0,
        ;
        assert(DISTANCE_SCALE as int * s / s == DISTANCE_SCALE as int) by (nonlinear_arith)
            requires
                s > 0,
        ;
        vstd::arithmetic::div_mod::lemma_div_is_ordered(
            DISTANCE_SCALE as int * diff_of(a, b),
            DISTANCE_SCALE as int * s,
            s,
        );
        vstd::arithmetic::div_mod::lemma_div_pos_is_pos(
            DISTANCE_SCALE as int * diff_of(a, b),
            s,
        );
    }
}

/// Computes the scaled distance between two feature vectors.
pub fn distance(a: &Vec<u32>, b: &Vec<u32>) -> (r: u32)
    requires
        a@.len() == BUCKETS as int,
        b@.len() == BUCKETS as int,
    ensures
        r == dist_of(a@, b@),
        r <= DISTANCE_SCALE,
{
    let mut suma: u64 = 0;
    let mut sumb: u64 = 0;
    let mut diff: u64 = 0;
    let mut i: usize = 0;
    proof {
        assert(a@.subrange(0, 0) =~= Seq::<u32>::empty());
        assert(b@.subrange(0, 0) =~= Seq::<u32>::empty());
    }
    while i < BUCKETS
        invariant
            i <= BUCKETS,
            a@.len() == BUCKETS as int,
            b@.len() == BUCKETS as int,
            suma == sum_of(a@.subrange(0, i as int)),
            sumb == sum_of(b@.subrange(0, i as int)),
            diff == diff_of(a@.subrange(0, i as int), b@.subrange(0, i as int)),
            suma <= i * 0xFFFF_FFFF,
            sumb <= i * 0xFFFF_FFFF,
            diff <= suma + sumb,
        decreases BUCKETS - i,
    {
        let x = a[i];
        let y = b[i];
        proof {
            assert(a@.subrange(0, i + 1).drop_last() =~= a@.subrange(0, i as int));
            assert(b@.subrange(0, i + 1).drop_last() =~= b@.subrange(0, i as int));
            assert(a@.subrange(0, i + 1).last() == x);
            assert(b@.subrange(0, i + 1).last() == y);
            assert((i + 1) * 0xFFFF_FFFF == i * 0xFFFF_FFFF + 0xFFFF_FFFF) by (nonlinear_arith);
        }
        suma = suma + x as u64;
        sumb = sumb + y as u64;
        if x >= y {
            diff = diff + (x - y) as u64;
        } else {
            diff = diff + (y - x) as u64;
        }
        i += 1;
    }
    proof {
        assert(a@.subrange(0, BUCKETS as int) =~= a@);
        assert(b@.subrange(0, BUCKETS as int) =~= b@);
        lemma_dist_bounds(a@, b@);
    }
    let s = suma + sumb;
    if s == 0 {
        0
    } else {
        let q = (DISTANCE_SCALE as u64 * diff) / s;
        proof {
            assert(q == dist_of(a@, b@));
        }
        q as u32
    }
}

// ---------------------------------------------------------------------------
// Feature matrices and nearest-neighbour search
// ---------------------------------------------------------------------------

/// One feature matrix: the vectors of one batch of baseline lines, one row
/// per line.
#[derive(Debug, Clone, PartialEq, Eq)]
pub struct FeaturesMatrix(pub Vec<Vec<u32>>);

impl View for FeaturesMatrix {
    type V = Seq<Seq<u32>>;

    open spec fn view(&self) -> Seq<Seq<u32>> {
        self.0.deep_view()
    }
}

impl DeepView for FeaturesMatrix {
    type V = Seq<Seq<u32>>;

    open spec fn deep_view(&self) -> Seq<Seq<u32>> {
        self.view()
    }
}

/// Every row of a well-formed matrix has the full bucket width.
pub open spec fn mat_wf(m: Seq<Seq<u32>>) -> bool {
    forall|i: int| 0 <= i < m.len() ==> (#[trigger] m[i]).len() == BUCKETS as int
}

pub open spec fn hidx_wf(mats: Seq<Seq<Seq<u32>>>) -> bool {
    forall|i: int| 0 <= i < mats.len() ==> mat_wf(#[trigger] mats[i])
}

/// The vectors of a batch of (tokenized) lines, one per line.
pub open spec fn vec_mat(lines: Seq<Seq<char>>) -> Seq<Seq<u32>> {
    lines.map_values(|l: Seq<char>| line_vec(l))
}

pub open spec fn min2(a: int, b: int) -> int {
    if a <= b {
        a
    } else {
        b
    }
}

/// Least distance from `t` to the first `i` rows of a matrix; an empty set
/// of rows is completely dissimilar.
pub open spec fn min_rows_upto(rows: Seq<Seq<u32>>, t: Seq<u32>, i: int) -> int
    decreases i,
{
    if i <= 0 {
        DISTANCE_SCALE as int
    } else {
        min2(min_rows_upto(rows, t, i - 1), dist_of(rows[i - 1], t))
    }
}

/// Least distance from `t` to any row of any of the first `i` matrices: a
/// target line is anomalous only when it is far from *every* stored
/// baseline sample.
pub open spec fn min_mats_upto(mats: Seq<Seq<Seq<u32>>>, t: Seq<u32>, i: int) -> int
    decreases i,
{
    if i <= 0 {
        DISTANCE_SCALE as int
    } else {
        min2(min_mats_upto(mats, t, i - 1), min_rows_upto(mats[i - 1], t, mats[i - 1].len() as int))
    }
}

pub open spec fn min_dist(mats: Seq<Seq<Seq<u32>>>, t: Seq<u32>) -> int {
    min_mats_upto(mats, t, mats.len() as int)
}

/// The distances of a batch of target lines against stored baselines.
pub open spec fn search_hashing(mats: Seq<Seq<Seq<u32>>>, lines: Seq<Seq<char>>) -> Seq<u32> {
    Seq::new(lines.len(), |i: int| min_dist(mats, line_vec(lines[i])) as u32)
}

proof fn lemma_min_rows_bounds(rows: Seq<Seq<u32>>, t: Seq<u32>, i: int)
    requires
        mat_wf(rows),
        t.len() == BUCKETS as int,
        i <= rows.len(),
    ensures
        0 <= min_rows_upto(rows, t, i) <= DISTANCE_SCALE as int,
    decreases i,
{
    if i > 0 {
        lemma_min_rows_bounds(rows, t, i - 1);
        lemma_dist_bounds(rows[i - 1], t);
    }
}

proof fn lemma_min_mats_bounds(mats: Seq<Seq<Seq<u32>>>, t: Seq<u32>, i: int)
    requires
        hidx_wf(mats),
        t.len() == BUCKETS as int,
        i <= mats.len(),
    ensures
        0 <= min_mats_upto(mats, t, i) <= DISTANCE_SCALE as int,
    decreases i,
{
    if i > 0 {
        lemma_min_mats_bounds(mats, t, i - 1);
        lemma_min_rows_bounds(mats[i - 1], t, mats[i - 1].len() as int);
    }
}

/// The operational chunk-index state: one feature matrix per baseline batch
/// that contributed to training, in training order.
#[derive(Debug, Clone, PartialEq, Eq)]
pub struct HashingIndex {
    pub baselines: Vec<FeaturesMatrix>,
}

impl View for HashingIndex {
    type V = Seq<Seq<Seq<u32>>>;

    open spec fn view(&self) -> Seq<Seq<Seq<u32>>> {
        self.baselines.deep_view()
    }
}

impl DeepView for HashingIndex {
    type V = Seq<Seq<Seq<u32>>>;

    open spec fn deep_view(&self) -> Seq<Seq<Seq<u32>>> {
        self.view()
    }
}

/// A fresh, empty hashing-trick index.
pub fn new() -> (r: crate::index::ChunkIndex)
    ensures
        r@ matches crate::index::ChunkIndexV::HashingTrick(m) && m.len() == 0,
{
    let empty: Vec<FeaturesMatrix> = Vec::new();
    proof {
        assert(empty.deep_view() =~= Seq::<Seq<Seq<u32>>>::empty());
    }
    crate::index::ChunkIndex::HashingTrick(HashingIndex { baselines: empty })
}

impl HashingIndex {
    /// Vectorizes one batch of baseline lines into a single feature matrix
    /// and appends it; one matrix per training call, never merged.
    pub fn add(&mut self, baselines: &Vec<String>)
        ensures
            final(self)@ == old(self)@.push(vec_mat(baselines.deep_view())),
            hidx_wf(old(self)@) ==> hidx_wf(final(self)@),
    {
        let ghost lv = baselines.deep_view();
        let mut rows: Vec<Vec<u32>> = Vec::new();
        let mut i: usize = 0;
        while i < baselines.len()
            invariant
                i <= baselines@.len(),
                lv == baselines.deep_view(),
                lv.len() == baselines@.len(),
                rows.deep_view() =~= vec_mat(lv.subrange(0, i as int)),
            decreases baselines@.len() - i,
        {
            let v = vectorize_line(baselines[i].as_str());
            let ghost pre = rows.deep_view();
            let ghost vview = v@;
            rows.push(v);
            proof {
                assert(rows.deep_view() =~~= pre.push(vview));
                assert(pre.push(vview) =~= vec_mat(lv.subrange(0, i + 1)));
            }
            i += 1;
        }
        proof {
            assert(lv.subrange(0, lv.len() as int) =~= lv);
        }
        let ghost old_mats = self@;
        self.baselines.push(FeaturesMatrix(rows));
        proof {
            assert(self@ =~= old_mats.push(vec_mat(lv)));
            if hidx_wf(old_mats) {
                assert forall|k: int| 0 <= k < self@.len() implies mat_wf(#[trigger] self@[k]) by {
                    if k == old_mats.len() {
                        assert forall|j: int|
                            0 <= j < vec_mat(lv).len() implies (#[trigger] vec_mat(lv)[j]).len()
                            == BUCKETS as int by {
                            lemma_line_vec_len(lv[j]);
                        }
                    }
                }
            }
        }
    }

    /// For every target line, its least distance against every stored
    /// baseline matrix.
    pub fn search(&self, targets: &Vec<String>) -> (r: Vec<u32>)
        requires
            hidx_wf(self@),
        ensures
            r@ == search_hashing(self@, targets.deep_view()),
            r@.len() == targets@.len(),
    {
        let ghost tv = targets.deep_view();
        let mut out: Vec<u32> = Vec::new();
        let mut ti: usize = 0;
        while ti < targets.len()
            invariant
                ti <= targets@.len(),
                tv == targets.deep_view(),
                tv.len() == targets@.len(),
                hidx_wf(self@),
                out@.len() == ti,
                forall|j: int| 0 <= j < ti ==> out@[j] == min_dist(self@, line_vec(tv[j])) as u32,
            decreases targets@.len() - ti,
        {
            let t = vectorize_line(targets[ti].as_str());
            let mut best: u32 = DISTANCE_SCALE;
            let mut mi: usize = 0;
            proof {
                lemma_min_mats_bounds(self@, t@, 0);
            }
            while mi < self.baselines.len()
                invariant
                    mi <= self.baselines@.len(),
                    self.baselines@.len() == self@.len(),
                    hidx_wf(self@),
                    t@ == line_vec(tv[ti as int]),
                    t@.len() == BUCKETS as int,
                    best as int == min_mats_upto(self@, t@, mi as int),
                decreases self.baselines@.len() - mi,
            {
                let m = &self.baselines[mi];
                proof {
                    assert(m@ == self@[mi as int]);
                }
                let mut ri: usize = 0;
                let mut local: u32 = DISTANCE_SCALE;
                while ri < m.0.len()
                    invariant
                        ri <= m.0@.len(),
                        m.0@.len() == m@.len(),
                        m@ == self@[mi as int],
                        mi < self@.len(),
                        hidx_wf(self@),
                        t@ == line_vec(tv[ti as int]),
                        t@.len() == BUCKETS as int,
                        local as int == min_rows_upto(m@, t@, ri as int),
                    decreases m.0@.len() - ri,
                {
                    proof {
                        assert(m.0@[ri as int].deep_view() == m@[ri as int]);
                        assert(m@[ri as int].len() == BUCKETS as int);
                        assert(m.0@[ri as int]@ == m@[ri as int]);
                    }
                    let d = distance(&m.0[ri], &t);
                    if d < local {
                        local = d;
                    }
                    ri += 1;
                }
                if local < best {
                    best = local;
                }
                mi += 1;
            }
            out.push(best);
            ti += 1;
        }
        proof {
            assert(out@ =~= search_hashing(self@, tv));
        }
        out
    }
}

} // verus!
