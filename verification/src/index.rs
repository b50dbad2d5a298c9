//! The chunk-index variants and the per-group `Index`: training from
//! baseline line batches and inspection of target lines.

use vstd::prelude::*;
use crate::hashing_index::{self, hidx_wf, search_hashing, tok_of, vec_mat, HashingIndex};
use crate::report::{Anomaly, AnomalyContext, AnomalyContextV, AnomalyV};

verus! {

/// Distances strictly above this are reported as anomalies.
pub const THRESHOLD: u32 = 500;

/// Raw lines kept before an anomaly.
pub const CONTEXT_BEFORE: usize = 3;

/// Raw lines kept after an anomaly.
pub const CONTEXT_AFTER: usize = 1;

/// Abstract value of a `ChunkIndex`.
pub enum ChunkIndexV {
    HashingTrick(Seq<Seq<Seq<u32>>>),
    Noop,
}

/// The closed set of chunk-index algorithm variants: the operational
/// hashing-trick index and a no-op pass-through for testing.
#[derive(Debug, Clone, PartialEq, Eq)]
pub enum ChunkIndex {
    HashingTrick(HashingIndex),
    Noop,
}

impl View for ChunkIndex {
    type V = ChunkIndexV;

    open spec fn view(&self) -> ChunkIndexV {
        match self {
            ChunkIndex::HashingTrick(h) => ChunkIndexV::HashingTrick(h@),
            ChunkIndex::Noop => ChunkIndexV::Noop,
        }
    }
}

impl DeepView for ChunkIndex {
    type V = ChunkIndexV;

    open spec fn deep_view(&self) -> ChunkIndexV {
        self.view()
    }
}

/// The caller-chosen algorithm variant, passed in explicitly at training
/// time.
#[derive(Debug, Clone, Copy, PartialEq, Eq)]
pub enum IndexAlgo {
    HashingTrick,
    Noop,
}

/// The empty state of each algorithm variant.
pub open spec fn fresh_index(algo: IndexAlgo) -> ChunkIndexV {
    match algo {
        IndexAlgo::HashingTrick => ChunkIndexV::HashingTrick(Seq::empty()),
        IndexAlgo::Noop => ChunkIndexV::Noop,
    }
}

/// A fresh, empty chunk index of the chosen variant.
pub fn make_index(algo: IndexAlgo) -> (r: ChunkIndex)
    ensures
        r@ == fresh_index(algo),
        ci_wf(r@),
{
    match algo {
        IndexAlgo::HashingTrick => {
            let r = hashing_index::new();
            proof {
                let m = choose|m: Seq<Seq<Seq<u32>>>| r@ == ChunkIndexV::HashingTrick(m) && m.len()
                    == 0;
                assert(m =~= Seq::<Seq<Seq<u32>>>::empty());
            }
            r
        },
        IndexAlgo::Noop => crate::noop_index::new(),
    }
}

pub open spec fn ci_wf(ci: ChunkIndexV) -> bool {
    match ci {
        ChunkIndexV::HashingTrick(m) => hidx_wf(m),
        ChunkIndexV::Noop => true,
    }
}

/// What each variant's tokenizer returns.
pub open spec fn tokenize_spec(ci: ChunkIndexV, line: Seq<char>) -> Seq<char> {
    match ci {
        ChunkIndexV::HashingTrick(_) => tok_of(line),
        ChunkIndexV::Noop => line,
    }
}

/// What `add` does to the state: the hashing index appends one matrix per
/// batch, the no-op index discards its input.
pub open spec fn add_spec(ci: ChunkIndexV, lines: Seq<Seq<char>>) -> ChunkIndexV {
    match ci {
        ChunkIndexV::HashingTrick(m) => ChunkIndexV::HashingTrick(m.push(vec_mat(lines))),
        ChunkIndexV::Noop => ChunkIndexV::Noop,
    }
}

/// What `search` returns: per-line least distance against all stored
/// baselines for the hashing index, all zeroes for the no-op index.
pub open spec fn search_spec(ci: ChunkIndexV, lines: Seq<Seq<char>>) -> Seq<u32> {
    match ci {
        ChunkIndexV::HashingTrick(m) => search_hashing(m, lines),
        ChunkIndexV::Noop => Seq::new(lines.len(), |i: int| 0u32),
    }
}

impl ChunkIndex {
    /// Canonicalizes one raw line the way this variant indexes lines.
    pub fn tokenize(&self, line: &str) -> (r: String)
        ensures
            r@ == tokenize_spec(self@, line@),
    {
        match self {
            ChunkIndex::HashingTrick(_) => hashing_index::tokenize(line),
            ChunkIndex::Noop => crate::noop_index::tokenize(line),
        }
    }

    /// Commits one batch of (tokenized) baseline lines.
    pub fn add(&mut self, baselines: &Vec<String>)
        ensures
            final(self)@ == add_spec(old(self)@, baselines.deep_view()),
            ci_wf(old(self)@) ==> ci_wf(final(self)@),
    {
        match self {
            ChunkIndex::HashingTrick(i) => i.add(baselines),
            ChunkIndex::Noop => {},
        }
    }

    /// Scores one batch of (tokenized) target lines; the result has one
    /// distance per line, each at most `DISTANCE_SCALE`, and the no-op
    /// variant never reports any distance above zero.
    pub fn search(&self, targets: &Vec<String>) -> (r: Vec<u32>)
        requires
            ci_wf(self@),
        ensures
            r@ == search_spec(self@, targets.deep_view()),
            r@.len() == targets@.len(),
            self@ matches ChunkIndexV::Noop ==> forall|i: int| 0 <= i < r@.len() ==> r@[i] == 0u32,
    {
        match self {
            ChunkIndex::HashingTrick(i) => i.search(targets),
            ChunkIndex::Noop => {
                let r = crate::noop_index::search(targets);
                proof {
                    assert(r@ =~= search_spec(self@, targets.deep_view()));
                }
                r
            },
        }
    }
}

// ---------------------------------------------------------------------------
// Index: training and inspection
// ---------------------------------------------------------------------------

/// Abstract value of an `Index`.
pub struct IndexV {
    pub train_time_ms: u64,
    pub index: ChunkIndexV,
}

/// One trained chunk index scoped to one group, with the caller-measured
/// training time.
#[derive(Debug, Clone, PartialEq, Eq)]
pub struct Index {
    pub train_time_ms: u64,
    pub index: ChunkIndex,
}

impl View for Index {
    type V = IndexV;

    open spec fn view(&self) -> IndexV {
        IndexV { train_time_ms: self.train_time_ms, index: self.index@ }
    }
}

impl DeepView for Index {
    type V = IndexV;

    open spec fn deep_view(&self) -> IndexV {
        self.view()
    }
}

/// One training step: tokenize a batch with the current variant, then
/// commit it.
pub open spec fn add_tok(ci: ChunkIndexV, lines: Seq<Seq<char>>) -> ChunkIndexV {
    add_spec(ci, lines.map_values(|l: Seq<char>| tokenize_spec(ci, l)))
}

/// The state after training on the first `i` source batches, in order.
pub open spec fn train_upto(ci: ChunkIndexV, srcs: Seq<Seq<Seq<char>>>, i: int) -> ChunkIndexV
    decreases i,
{
    if i <= 0 {
        ci
    } else {
        add_tok(train_upto(ci, srcs, i - 1), srcs[i - 1])
    }
}

/// Lines tokenized the way the given variant indexes them.
pub open spec fn toks_of(ci: ChunkIndexV, lines: Seq<Seq<char>>) -> Seq<Seq<char>> {
    lines.map_values(|l: Seq<char>| tokenize_spec(ci, l))
}

/// The per-line distances of a batch of raw target lines.
pub open spec fn dists_of(ci: ChunkIndexV, lines: Seq<Seq<char>>) -> Seq<u32> {
    search_spec(ci, toks_of(ci, lines))
}

/// The context window packaged around the anomalous line at `i`.
pub open spec fn ctx_at(lines: Seq<Seq<char>>, d: u32, i: int) -> AnomalyContextV {
    AnomalyContextV {
        before: lines.subrange(
            if i - CONTEXT_BEFORE as int >= 0 {
                i - CONTEXT_BEFORE as int
            } else {
                0
            },
            i,
        ),
        anomaly: AnomalyV { distance: d, pos: i as nat, line: lines[i] },
        after: lines.subrange(
            i + 1,
            if i + 1 + CONTEXT_AFTER as int <= lines.len() {
                i + 1 + CONTEXT_AFTER as int
            } else {
                lines.len() as int
            },
        ),
    }
}

/// The anomaly contexts among the first `i` lines, in line order: exactly
/// the lines whose distance exceeds `THRESHOLD`.
pub open spec fn anomalies_upto(ci: ChunkIndexV, lines: Seq<Seq<char>>, i: int) -> Seq<
    AnomalyContextV,
>
    decreases i,
{
    if i <= 0 {
        Seq::empty()
    } else {
        let prev = anomalies_upto(ci, lines, i - 1);
        if dists_of(ci, lines)[i - 1] > THRESHOLD {
            prev.push(ctx_at(lines, dists_of(ci, lines)[i - 1], i - 1))
        } else {
            prev
        }
    }
}

/// All anomaly contexts of a batch of raw target lines.
pub open spec fn anomalies_of(ci: ChunkIndexV, lines: Seq<Seq<char>>) -> Seq<AnomalyContextV> {
    anomalies_upto(ci, lines, lines.len() as int)
}

/// Tokenizes a whole batch with the given index's variant.
fn tokenize_batch(ci: &ChunkIndex, lines: &Vec<String>) -> (r: Vec<String>)
    ensures
        r.deep_view() == toks_of(ci@, lines.deep_view()),
{
    let ghost lv = lines.deep_view();
    let mut tokens: Vec<String> = Vec::new();
    let mut i: usize = 0;
    proof {
        assert(tokens.deep_view() =~= toks_of(ci@, lv.subrange(0, 0)));
    }
    while i < lines.len()
        invariant
            i <= lines@.len(),
            lv == lines.deep_view(),
            lv.len() == lines@.len(),
            tokens.deep_view() == toks_of(ci@, lv.subrange(0, i as int)),
        decreases lines@.len() - i,
    {
        let t = ci.tokenize(lines[i].as_str());
        let ghost pre = tokens.deep_view();
        let ghost tview = t@;
        tokens.push(t);
        proof {
            assert(tokens.deep_view() =~= pre.push(tview));
            assert(pre.push(tview) =~= toks_of(ci@, lv.subrange(0, i + 1)));
        }
        i += 1;
    }
    proof {
        assert(lv.subrange(0, lv.len() as int) =~= lv);
    }
    tokens
}

impl Index {
    /// Trains one index from the opened sources of one group, in input
    /// order: each batch of raw lines is tokenized and committed as one
    /// training call. The training time is measured by the caller.
    pub fn train(lines_per_source: &Vec<Vec<String>>, index: ChunkIndex, train_time_ms: u64) -> (r:
        Index)
        requires
            ci_wf(index@),
        ensures
            r@.train_time_ms == train_time_ms,
            r@.index == train_upto(
                index@,
                lines_per_source.deep_view(),
                lines_per_source.deep_view().len() as int,
            ),
            ci_wf(r@.index),
    {
        let ghost ci0 = index@;
        let ghost lps = lines_per_source.deep_view();
        let mut ix = index;
        let mut si: usize = 0;
        while si < lines_per_source.len()
            invariant
                si <= lines_per_source@.len(),
                lps == lines_per_source.deep_view(),
                lps.len() == lines_per_source@.len(),
                ix@ == train_upto(ci0, lps, si as int),
                ci_wf(ix@),
            decreases lines_per_source@.len() - si,
        {
            let tokens = tokenize_batch(&ix, &lines_per_source[si]);
            proof {
                assert(lines_per_source@[si as int].deep_view() == lps[si as int]);
            }
            ix.add(&tokens);
            si += 1;
        }
        Index { train_time_ms, index: ix }
    }

    /// Streams one opened target source through this index: each raw line
    /// is tokenized the way training tokenized, scored against the stored
    /// baselines, and packaged with its surrounding raw lines when its
    /// distance exceeds `THRESHOLD`. Results keep the source's line order
    /// and report positions consistent with it.
    pub fn inspect(&self, lines: &Vec<String>) -> (r: Vec<AnomalyContext>)
        requires
            ci_wf(self@.index),
        ensures
            r.deep_view() == anomalies_of(self@.index, lines.deep_view()),
    {
        let ghost ci = self@.index;
        let ghost lv = lines.deep_view();
        let tokens = tokenize_batch(&self.index, lines);
        let dists = self.index.search(&tokens);
        proof {
            assert(dists@ == dists_of(ci, lv));
        }
        let mut out: Vec<AnomalyContext> = Vec::new();
        let mut i: usize = 0;
        proof {
            assert(out.deep_view() =~= anomalies_upto(ci, lv, 0));
        }
        while i < lines.len()
            invariant
                i <= lines@.len(),
                lv == lines.deep_view(),
                lv.len() == lines@.len(),
                dists@ == dists_of(ci, lv),
                dists@.len() == lv.len(),
                out.deep_view() == anomalies_upto(ci, lv, i as int),
            decreases lines@.len() - i,
        {
            let d = dists[i];
            if d > THRESHOLD {
                let lo = if i >= CONTEXT_BEFORE {
                    i - CONTEXT_BEFORE
                } else {
                    0
                };
                let mut before: Vec<String> = Vec::new();
                let mut j: usize = lo;
                proof {
                    assert(before.deep_view() =~= lv.subrange(lo as int, lo as int));
                }
                while j < i
                    invariant
                        lo <= j <= i,
                        i < lv.len(),
                        lv == lines.deep_view(),
                        lv.len() == lines@.len(),
                        before.deep_view() == lv.subrange(lo as int, j as int),
                    decreases i - j,
                {
                    let ghost pre = before.deep_view();
                    before.push(lines[j].clone());
                    proof {
                        assert(before.deep_view() =~= pre.push(lv[j as int]));
                        assert(pre.push(lv[j as int]) =~= lv.subrange(lo as int, j + 1));
                    }
                    j += 1;
                }
                let rem = lines.len() - (i + 1);
                let hi = if rem > CONTEXT_AFTER {
                    i + 1 + CONTEXT_AFTER
                } else {
                    lines.len()
                };
                let mut after: Vec<String> = Vec::new();
                let mut k: usize = i + 1;
                proof {
                    assert(after.deep_view() =~= lv.subrange(i + 1, i + 1));
                }
                while k < hi
                    invariant
                        i + 1 <= k <= hi,
                        hi <= lv.len(),
                        lv == lines.deep_view(),
                        lv.len() == lines@.len(),
                        after.deep_view() == lv.subrange(i + 1, k as int),
                    decreases hi - k,
                {
                    let ghost pre = after.deep_view();
                    after.push(lines[k].clone());
                    proof {
                        assert(after.deep_view() =~= pre.push(lv[k as int]));
                        assert(pre.push(lv[k as int]) =~= lv.subrange(i + 1, k + 1));
                    }
                    k += 1;
                }
                let ghost pre = out.deep_view();
                out.push(
                    AnomalyContext {
                        before,
                        anomaly: Anomaly { distance: d, pos: i, line: lines[i].clone() },
                        after,
                    },
                );
                proof {
                    assert(out.deep_view() =~= pre.push(ctx_at(lv, d, i as int)));
                }
            }
            i += 1;
        }
        proof {
            assert(out.deep_view() == anomalies_of(ci, lv));
        }
        out
    }

    /// The caller-measured training duration, in milliseconds.
    pub fn train_time_ms(&self) -> (r: u64)
        ensures
            r == self@.train_time_ms,
    {
        self.train_time_ms
    }
}

} // verus!
