//! A self-describing binary encoding of the model.
//!
//! The model is first laid out as a stream of 64-bit words — tags, lengths,
//! characters as code points, counters — and the words are then written as
//! little-endian bytes. Decoding inverts encoding exactly, which is what
//! makes a saved model load back identical.

use vstd::prelude::*;
use vstd::bytes::{
    lemma_auto_spec_u64_to_from_le_bytes, spec_u64_from_le_bytes, spec_u64_to_le_bytes,
    u64_from_le_bytes, u64_to_le_bytes,
};
use vstd::slice::slice_subrange;
use vstd::utf8::{char_is_scalar, char_u32_cast, is_scalar};
use crate::source::{push_char, Build, BuildV, Content, ContentV, IndexName, Source, SourceV};
use crate::hashing_index::{FeaturesMatrix, HashingIndex, BUCKETS};
use crate::index::{ChunkIndex, ChunkIndexV, Index, IndexV};
use crate::model::{ModelV};

verus! {

// ---------------------------------------------------------------------------
// Words to bytes and back
// ---------------------------------------------------------------------------

pub open spec fn bytes_of_words(ws: Seq<u64>) -> Seq<u8>
    decreases ws.len(),
{
    if ws.len() == 0 {
        Seq::empty()
    } else {
        bytes_of_words(ws.drop_last()) + spec_u64_to_le_bytes(ws.last())
    }
}

proof fn lemma_bytes_of_words_len(ws: Seq<u64>)
    ensures
        bytes_of_words(ws).len() == 8 * ws.len(),
    decreases ws.len(),
{
    lemma_auto_spec_u64_to_from_le_bytes();
    if ws.len() > 0 {
        lemma_bytes_of_words_len(ws.drop_last());
    }
}

proof fn lemma_words_injective(a: Seq<u64>, b: Seq<u64>)
    requires
        bytes_of_words(a) == bytes_of_words(b),
    ensures
        a == b,
    decreases a.len(),
{
    lemma_auto_spec_u64_to_from_le_bytes();
    lemma_bytes_of_words_len(a);
    lemma_bytes_of_words_len(b);
    if a.len() == 0 {
        assert(a =~= b);
    } else {
        let ba = bytes_of_words(a.drop_last());
        let bb = bytes_of_words(b.drop_last());
        let ta = spec_u64_to_le_bytes(a.last());
        let tb = spec_u64_to_le_bytes(b.last());
        lemma_bytes_of_words_len(a.drop_last());
        lemma_bytes_of_words_len(b.drop_last());
        assert(bytes_of_words(a) == ba + ta);
        assert(bytes_of_words(b) == bb + tb);
        assert(ba =~= bb) by {
            assert forall|i: int| 0 <= i < ba.len() implies ba[i] == bb[i] by {
                assert(ba[i] == (ba + ta)[i]);
                assert(bb[i] == (bb + tb)[i]);
            }
        }
        lemma_words_injective(a.drop_last(), b.drop_last());
        assert(ta =~= tb) by {
            assert forall|i: int| 0 <= i < ta.len() implies ta[i] == tb[i] by {
                assert(ta[i] == (ba + ta)[ba.len() + i]);
                assert(tb[i] == (bb + tb)[bb.len() + i]);
            }
        }
        assert(a.last() == b.last()) by {
            assert(spec_u64_from_le_bytes(spec_u64_to_le_bytes(a.last())) == a.last());
            assert(spec_u64_from_le_bytes(spec_u64_to_le_bytes(b.last())) == b.last());
        }
        assert(a =~= b) by {
            assert forall|i: int| 0 <= i < a.len() implies a[i] == b[i] by {
                if i < a.len() - 1 {
                    assert(a[i] == a.drop_last()[i]);
                    assert(b[i] == b.drop_last()[i]);
                }
            }
        }
    }
}

fn words_to_bytes(ws: &Vec<u64>) -> (r: Vec<u8>)
    ensures
        r@ == bytes_of_words(ws@),
{
    let mut out: Vec<u8> = Vec::new();
    proof {
        assert(ws@.subrange(0, 0) =~= Seq::<u64>::empty());
    }
    let mut i: usize = 0;
    while i < ws.len()
        invariant
            i <= ws@.len(),
            out@ == bytes_of_words(ws@.subrange(0, i as int)),
        decreases ws@.len() - i,
    {
        let mut b = u64_to_le_bytes(ws[i]);
        out.append(&mut b);
        proof {
            assert(ws@.subrange(0, i + 1).drop_last() =~= ws@.subrange(0, i as int));
            assert(ws@.subrange(0, i + 1).last() == ws@[i as int]);
        }
        i += 1;
    }
    proof {
        assert(ws@.subrange(0, ws@.len() as int) =~= ws@);
    }
    out
}

fn words_from_bytes(bytes: &Vec<u8>) -> (r: Option<Vec<u64>>)
    ensures
        (r is Some) == (bytes@.len() % 8 == 0),
        r matches Some(ws) ==> bytes@ == bytes_of_words(ws@),
{
    let total = bytes.len();
    if total % 8 != 0 {
        return None;
    }
    let count = total / 8;
    let mut out: Vec<u64> = Vec::new();
    proof {
        lemma_auto_spec_u64_to_from_le_bytes();
        assert(bytes@.subrange(0, 0) =~= Seq::<u8>::empty());
    }
    let mut i: usize = 0;
    while i < count
        invariant
            i <= count,
            count == bytes@.len() / 8,
            bytes@.len() % 8 == 0,
            bytes@.len() == 8 * count,
            bytes@.len() <= usize::MAX,
            out@.len() == i,
            bytes@.subrange(0, 8 * i as int) == bytes_of_words(out@),
        decreases count - i,
    {
        proof {
            assert(8 * (i as int) + 8 <= 8 * (count as int));
        }
        let chunk = slice_subrange(bytes.as_slice(), 8 * i, 8 * i + 8);
        let w = u64_from_le_bytes(chunk);
        let ghost pre = out@;
        out.push(w);
        proof {
            lemma_auto_spec_u64_to_from_le_bytes();
            assert(out@.drop_last() =~= pre);
            assert(spec_u64_to_le_bytes(w) =~= chunk@);
            assert(bytes@.subrange(0, 8 * (i + 1)) =~= bytes@.subrange(0, 8 * i as int)
                + chunk@);
        }
        i += 1;
    }
    proof {
        assert(bytes@.subrange(0, 8 * count as int) =~= bytes@);
    }
    Some(out)
}

// ---------------------------------------------------------------------------
// Word-level encoders
// ---------------------------------------------------------------------------

pub open spec fn enc_str(s: Seq<char>) -> Seq<u64> {
    seq![s.len() as u64] + s.map_values(|c: char| (c as u32) as u64)
}

pub open spec fn enc_src(s: SourceV) -> Seq<u64> {
    match s {
        SourceV::Local(p, t) => seq![0u64, p as u64] + enc_str(t),
        SourceV::Remote(p, t) => seq![1u64, p as u64] + enc_str(t),
    }
}

pub open spec fn enc_build(b: BuildV) -> Seq<u64> {
    enc_str(b.uuid) + enc_str(b.job_name) + enc_str(b.log_url)
}

pub open spec fn enc_content(c: ContentV) -> Seq<u64> {
    match c {
        ContentV::File(s) => seq![0u64] + enc_src(s),
        ContentV::Directory(s) => seq![1u64] + enc_src(s),
        ContentV::Zuul(b) => seq![2u64] + enc_build(b),
    }
}

pub open spec fn cat_contents(cs: Seq<ContentV>) -> Seq<u64>
    decreases cs.len(),
{
    if cs.len() == 0 {
        Seq::empty()
    } else {
        enc_content(cs.first()) + cat_contents(cs.drop_first())
    }
}

pub open spec fn enc_contents(cs: Seq<ContentV>) -> Seq<u64> {
    seq![cs.len() as u64] + cat_contents(cs)
}

/// A feature row is stored at its fixed width, one word per bucket.
pub open spec fn enc_row(r: Seq<u32>) -> Seq<u64> {
    r.map_values(|x: u32| x as u64)
}

pub open spec fn cat_rows(rs: Seq<Seq<u32>>) -> Seq<u64>
    decreases rs.len(),
{
    if rs.len() == 0 {
        Seq::empty()
    } else {
        enc_row(rs.first()) + cat_rows(rs.drop_first())
    }
}

pub open spec fn enc_mat(m: Seq<Seq<u32>>) -> Seq<u64> {
    seq![m.len() as u64] + cat_rows(m)
}

pub open spec fn cat_mats(ms: Seq<Seq<Seq<u32>>>) -> Seq<u64>
    decreases ms.len(),
{
    if ms.len() == 0 {
        Seq::empty()
    } else {
        enc_mat(ms.first()) + cat_mats(ms.drop_first())
    }
}

pub open spec fn enc_mats(ms: Seq<Seq<Seq<u32>>>) -> Seq<u64> {
    seq![ms.len() as u64] + cat_mats(ms)
}

pub open spec fn enc_chunk(ci: ChunkIndexV) -> Seq<u64> {
    match ci {
        ChunkIndexV::HashingTrick(ms) => seq![0u64] + enc_mats(ms),
        ChunkIndexV::Noop => seq![1u64],
    }
}

pub open spec fn enc_index(ix: IndexV) -> Seq<u64> {
    seq![ix.train_time_ms] + enc_chunk(ix.index)
}

pub open spec fn enc_pair(p: (Seq<char>, IndexV)) -> Seq<u64> {
    enc_str(p.0) + enc_index(p.1)
}

pub open spec fn cat_pairs(ps: Seq<(Seq<char>, IndexV)>) -> Seq<u64>
    decreases ps.len(),
{
    if ps.len() == 0 {
        Seq::empty()
    } else {
        enc_pair(ps.first()) + cat_pairs(ps.drop_first())
    }
}

pub open spec fn enc_pairs(ps: Seq<(Seq<char>, IndexV)>) -> Seq<u64> {
    seq![ps.len() as u64] + cat_pairs(ps)
}

/// The whole model as one word stream.
pub open spec fn enc_model(m: ModelV) -> Seq<u64> {
    seq![m.created_at_ms] + enc_contents(m.baselines) + enc_pairs(m.indexes)
}

// ---------------------------------------------------------------------------
// Boundedness: every length and prefix fits its encoded word
// ---------------------------------------------------------------------------

pub open spec fn bounded_str(s: Seq<char>) -> bool {
    s.len() <= u64::MAX
}

pub open spec fn bounded_src(s: SourceV) -> bool {
    match s {
        SourceV::Local(p, t) => p <= usize::MAX && bounded_str(t),
        SourceV::Remote(p, t) => p <= usize::MAX && bounded_str(t),
    }
}

pub open spec fn bounded_content(c: ContentV) -> bool {
    match c {
        ContentV::File(s) => bounded_src(s),
        ContentV::Directory(s) => bounded_src(s),
        ContentV::Zuul(b) => bounded_str(b.uuid) && bounded_str(b.job_name) && bounded_str(
            b.log_url,
        ),
    }
}

pub open spec fn bounded_mat(m: Seq<Seq<u32>>) -> bool {
    m.len() <= u64::MAX && forall|i: int| 0 <= i < m.len() ==> (#[trigger] m[i]).len() == BUCKETS
}

pub open spec fn bounded_chunk(ci: ChunkIndexV) -> bool {
    match ci {
        ChunkIndexV::HashingTrick(ms) => ms.len() <= u64::MAX && forall|i: int|
            0 <= i < ms.len() ==> bounded_mat(#[trigger] ms[i]),
        ChunkIndexV::Noop => true,
    }
}

pub open spec fn bounded_pair(p: (Seq<char>, IndexV)) -> bool {
    bounded_str(p.0) && bounded_chunk(p.1.index)
}

/// Everything in the model fits the encoding: lengths fit their words and
/// feature rows have their fixed width.
pub open spec fn bounded_model(m: ModelV) -> bool {
    &&& m.baselines.len() <= u64::MAX
    &&& forall|i: int| 0 <= i < m.baselines.len() ==> bounded_content(#[trigger] m.baselines[i])
    &&& m.indexes.len() <= u64::MAX
    &&& forall|i: int| 0 <= i < m.indexes.len() ==> bounded_pair(#[trigger] m.indexes[i])
}

// ---------------------------------------------------------------------------
// Word-level decoders
// ---------------------------------------------------------------------------

pub open spec fn valid_char_word(w: u64) -> bool {
    w <= u32::MAX && is_scalar(w as u32)
}

pub open spec fn word_char(w: u64) -> char {
    (w as u32) as char
}

pub open spec fn dec_str(ws: Seq<u64>, p: int) -> Option<(Seq<char>, int)> {
    if !(0 <= p < ws.len()) {
        None
    } else {
        let n = ws[p] as int;
        if p + 1 + n > ws.len() {
            None
        } else if exists|i: int| 0 <= i < n && !valid_char_word(#[trigger] ws[p + 1 + i]) {
            None
        } else {
            Some((Seq::new(n as nat, |i: int| word_char(ws[p + 1 + i])), p + 1 + n))
        }
    }
}

pub open spec fn dec_src(ws: Seq<u64>, p: int) -> Option<(SourceV, int)> {
    if !(0 <= p && p + 2 <= ws.len()) {
        None
    } else if ws[p] != 0 && ws[p] != 1 {
        None
    } else if ws[p + 1] > usize::MAX as u64 {
        None
    } else {
        match dec_str(ws, p + 2) {
            None => None,
            Some((t, q)) => if ws[p] == 0 {
                Some((SourceV::Local(ws[p + 1] as nat, t), q))
            } else {
                Some((SourceV::Remote(ws[p + 1] as nat, t), q))
            },
        }
    }
}

pub open spec fn dec_build(ws: Seq<u64>, p: int) -> Option<(BuildV, int)> {
    match dec_str(ws, p) {
        None => None,
        Some((uuid, q1)) => match dec_str(ws, q1) {
            None => None,
            Some((job_name, q2)) => match dec_str(ws, q2) {
                None => None,
                Some((log_url, q3)) => Some((BuildV { uuid, job_name, log_url }, q3)),
            },
        },
    }
}

pub open spec fn dec_content(ws: Seq<u64>, p: int) -> Option<(ContentV, int)> {
    if !(0 <= p < ws.len()) {
        None
    } else if ws[p] == 0 {
        match dec_src(ws, p + 1) {
            None => None,
            Some((s, q)) => Some((ContentV::File(s), q)),
        }
    } else if ws[p] == 1 {
        match dec_src(ws, p + 1) {
            None => None,
            Some((s, q)) => Some((ContentV::Directory(s), q)),
        }
    } else if ws[p] == 2 {
        match dec_build(ws, p + 1) {
            None => None,
            Some((b, q)) => Some((ContentV::Zuul(b), q)),
        }
    } else {
        None
    }
}

pub open spec fn dec_content_list(ws: Seq<u64>, p: int, n: int) -> Option<(Seq<ContentV>, int)>
    decreases n,
{
    if n <= 0 {
        Some((Seq::empty(), p))
    } else {
        match dec_content(ws, p) {
            None => None,
            Some((c, q)) => match dec_content_list(ws, q, n - 1) {
                None => None,
                Some((cs, e)) => Some((seq![c] + cs, e)),
            },
        }
    }
}

pub open spec fn dec_contents(ws: Seq<u64>, p: int) -> Option<(Seq<ContentV>, int)> {
    if !(0 <= p < ws.len()) {
        None
    } else {
        dec_content_list(ws, p + 1, ws[p] as int)
    }
}

pub open spec fn dec_row(ws: Seq<u64>, p: int) -> Option<(Seq<u32>, int)> {
    if !(0 <= p && p + BUCKETS <= ws.len()) {
        None
    } else if exists|i: int| 0 <= i < BUCKETS && (#[trigger] ws[p + i]) > u32::MAX as u64 {
        None
    } else {
        Some((Seq::new(BUCKETS as nat, |i: int| ws[p + i] as u32), p + BUCKETS))
    }
}

pub open spec fn dec_row_list(ws: Seq<u64>, p: int, n: int) -> Option<(Seq<Seq<u32>>, int)>
    decreases n,
{
    if n <= 0 {
        Some((Seq::empty(), p))
    } else {
        match dec_row(ws, p) {
            None => None,
            Some((r, q)) => match dec_row_list(ws, q, n - 1) {
                None => None,
                Some((rs, e)) => Some((seq![r] + rs, e)),
            },
        }
    }
}

pub open spec fn dec_mat(ws: Seq<u64>, p: int) -> Option<(Seq<Seq<u32>>, int)> {
    if !(0 <= p < ws.len()) {
        None
    } else {
        dec_row_list(ws, p + 1, ws[p] as int)
    }
}

pub open spec fn dec_mat_list(ws: Seq<u64>, p: int, n: int) -> Option<(Seq<Seq<Seq<u32>>>, int)>
    decreases n,
{
    if n <= 0 {
        Some((Seq::empty(), p))
    } else {
        match dec_mat(ws, p) {
            None => None,
            Some((m, q)) => match dec_mat_list(ws, q, n - 1) {
                None => None,
                Some((ms, e)) => Some((seq![m] + ms, e)),
            },
        }
    }
}

pub open spec fn dec_mats(ws: Seq<u64>, p: int) -> Option<(Seq<Seq<Seq<u32>>>, int)> {
    if !(0 <= p < ws.len()) {
        None
    } else {
        dec_mat_list(ws, p + 1, ws[p] as int)
    }
}

pub open spec fn dec_chunk(ws: Seq<u64>, p: int) -> Option<(ChunkIndexV, int)> {
    if !(0 <= p < ws.len()) {
        None
    } else if ws[p] == 0 {
        match dec_mats(ws, p + 1) {
            None => None,
            Some((ms, q)) => Some((ChunkIndexV::HashingTrick(ms), q)),
        }
    } else if ws[p] == 1 {
        Some((ChunkIndexV::Noop, p + 1))
    } else {
        None
    }
}

pub open spec fn dec_index(ws: Seq<u64>, p: int) -> Option<(IndexV, int)> {
    if !(0 <= p < ws.len()) {
        None
    } else {
        match dec_chunk(ws, p + 1) {
            None => None,
            Some((ci, q)) => Some((IndexV { train_time_ms: ws[p], index: ci }, q)),
        }
    }
}

pub open spec fn dec_pair(ws: Seq<u64>, p: int) -> Option<((Seq<char>, IndexV), int)> {
    match dec_str(ws, p) {
        None => None,
        Some((name, q)) => match dec_index(ws, q) {
            None => None,
            Some((ix, e)) => Some(((name, ix), e)),
        },
    }
}

pub open spec fn dec_pair_list(ws: Seq<u64>, p: int, n: int) -> Option<
    (Seq<(Seq<char>, IndexV)>, int),
>
    decreases n,
{
    if n <= 0 {
        Some((Seq::empty(), p))
    } else {
        match dec_pair(ws, p) {
            None => None,
            Some((pr, q)) => match dec_pair_list(ws, q, n - 1) {
                None => None,
                Some((ps, e)) => Some((seq![pr] + ps, e)),
            },
        }
    }
}

pub open spec fn dec_pairs(ws: Seq<u64>, p: int) -> Option<(Seq<(Seq<char>, IndexV)>, int)> {
    if !(0 <= p < ws.len()) {
        None
    } else {
        dec_pair_list(ws, p + 1, ws[p] as int)
    }
}

pub open spec fn dec_model(ws: Seq<u64>, p: int) -> Option<(ModelV, int)> {
    if !(0 <= p < ws.len()) {
        None
    } else {
        match dec_contents(ws, p + 1) {
            None => None,
            Some((bs, q)) => match dec_pairs(ws, q) {
                None => None,
                Some((ps, e)) => Some(
                    (ModelV { created_at_ms: ws[p], baselines: bs, indexes: ps }, e),
                ),
            },
        }
    }
}

// ---------------------------------------------------------------------------
// Round trip: decoding inverts encoding
// ---------------------------------------------------------------------------

proof fn lemma_window_split(ws: Seq<u64>, p: int, a: Seq<u64>, b: Seq<u64>)
    requires
        0 <= p,
        p + a.len() + b.len() <= ws.len(),
        ws.subrange(p, p + a.len() + b.len()) == a + b,
    ensures
        ws.subrange(p, p + a.len() as int) == a,
        ws.subrange(p + a.len() as int, p + a.len() + b.len()) == b,
{
    assert(ws.subrange(p, p + a.len() as int) =~= a) by {
        assert forall|i: int| 0 <= i < a.len() implies ws.subrange(p, p + a.len() as int)[i]
            == a[i] by {
            assert(ws.subrange(p, p + a.len() + b.len())[i] == (a + b)[i]);
        }
    }
    assert(ws.subrange(p + a.len() as int, p + a.len() + b.len()) =~= b) by {
        assert forall|i: int| 0 <= i < b.len() implies ws.subrange(
            p + a.len() as int,
            p + a.len() + b.len(),
        )[i] == b[i] by {
            assert(ws.subrange(p + a.len() as int, p + a.len() + b.len())[i] == ws[p + a.len()
                + i]);
            assert(ws.subrange(p, p + a.len() + b.len())[a.len() + i] == ws[p + a.len() + i]);
            assert((a + b)[a.len() + i] == b[i]);
        }
    }
}

proof fn lemma_dec_enc_str(s: Seq<char>, ws: Seq<u64>, p: int)
    requires
        bounded_str(s),
        0 <= p,
        p + enc_str(s).len() <= ws.len(),
        ws.subrange(p, p + enc_str(s).len() as int) == enc_str(s),
    ensures
        dec_str(ws, p) == Some((s, p + enc_str(s).len())),
{
    let e = enc_str(s);
    let n = s.len() as int;
    assert(e.len() == 1 + n);
    assert(ws[p] == e[0]) by {
        assert(ws[p] == ws.subrange(p, p + e.len() as int)[0]);
    }
    assert(ws[p] as int == n);
    assert forall|i: int| 0 <= i < n implies valid_char_word(#[trigger] ws[p + 1 + i])
        && word_char(ws[p + 1 + i]) == s[i] by {
        assert(ws[p + 1 + i] == ws.subrange(p, p + e.len() as int)[1 + i]);
        assert(e[1 + i] == (s[i] as u32) as u64);
        char_is_scalar(s[i]);
        char_u32_cast(s[i], s[i] as u32);
    }
    assert(!(exists|i: int| 0 <= i < n && !valid_char_word(#[trigger] ws[p + 1 + i])));
    assert(Seq::new(n as nat, |i: int| word_char(ws[p + 1 + i])) =~= s);
}

proof fn lemma_dec_enc_src(s: SourceV, ws: Seq<u64>, p: int)
    requires
        bounded_src(s),
        0 <= p,
        p + enc_src(s).len() <= ws.len(),
        ws.subrange(p, p + enc_src(s).len() as int) == enc_src(s),
    ensures
        dec_src(ws, p) == Some((s, p + enc_src(s).len())),
{
    let e = enc_src(s);
    let tag: u64 = if s matches SourceV::Local(_, _) {
        0u64
    } else {
        1u64
    };
    let pre = crate::source::src_prefix(s);
    let t = crate::source::src_path(s);
    assert(e == seq![tag, pre as u64] + enc_str(t));
    lemma_window_split(ws, p, seq![tag, pre as u64], enc_str(t));
    assert(ws[p] == tag && ws[p + 1] == pre as u64) by {
        assert(ws[p] == ws.subrange(p, p + 2)[0]);
        assert(ws[p + 1] == ws.subrange(p, p + 2)[1]);
    }
    lemma_dec_enc_str(t, ws, p + 2);
    assert(ws[p + 1] as nat == pre);
}

proof fn lemma_dec_enc_build(b: BuildV, ws: Seq<u64>, p: int)
    requires
        bounded_str(b.uuid),
        bounded_str(b.job_name),
        bounded_str(b.log_url),
        0 <= p,
        p + enc_build(b).len() <= ws.len(),
        ws.subrange(p, p + enc_build(b).len() as int) == enc_build(b),
    ensures
        dec_build(ws, p) == Some((b, p + enc_build(b).len())),
{
    let e1 = enc_str(b.uuid);
    let e2 = enc_str(b.job_name);
    let e3 = enc_str(b.log_url);
    assert(enc_build(b) == (e1 + e2) + e3);
    lemma_window_split(ws, p, e1 + e2, e3);
    lemma_window_split(ws, p, e1, e2);
    lemma_dec_enc_str(b.uuid, ws, p);
    lemma_dec_enc_str(b.job_name, ws, p + e1.len());
    lemma_dec_enc_str(b.log_url, ws, p + e1.len() + e2.len());
}

proof fn lemma_dec_enc_content(c: ContentV, ws: Seq<u64>, p: int)
    requires
        bounded_content(c),
        0 <= p,
        p + enc_content(c).len() <= ws.len(),
        ws.subrange(p, p + enc_content(c).len() as int) == enc_content(c),
    ensures
        dec_content(ws, p) == Some((c, p + enc_content(c).len())),
{
    match c {
        ContentV::File(s) => {
            lemma_window_split(ws, p, seq![0u64], enc_src(s));
            assert(ws[p] == 0u64) by {
                assert(ws[p] == ws.subrange(p, p + 1)[0]);
            }
            lemma_dec_enc_src(s, ws, p + 1);
        },
        ContentV::Directory(s) => {
            lemma_window_split(ws, p, seq![1u64], enc_src(s));
            assert(ws[p] == 1u64) by {
                assert(ws[p] == ws.subrange(p, p + 1)[0]);
            }
            lemma_dec_enc_src(s, ws, p + 1);
        },
        ContentV::Zuul(b) => {
            lemma_window_split(ws, p, seq![2u64], enc_build(b));
            assert(ws[p] == 2u64) by {
                assert(ws[p] == ws.subrange(p, p + 1)[0]);
            }
            lemma_dec_enc_build(b, ws, p + 1);
        },
    }
}

proof fn lemma_dec_enc_content_list(cs: Seq<ContentV>, ws: Seq<u64>, p: int)
    requires
        forall|i: int| 0 <= i < cs.len() ==> bounded_content(#[trigger] cs[i]),
        0 <= p,
        p + cat_contents(cs).len() <= ws.len(),
        ws.subrange(p, p + cat_contents(cs).len() as int) == cat_contents(cs),
    ensures
        dec_content_list(ws, p, cs.len() as int) == Some((cs, p + cat_contents(cs).len())),
    decreases cs.len(),
{
    if cs.len() == 0 {
        assert(dec_content_list(ws, p, 0) == Some((Seq::<ContentV>::empty(), p)));
        assert(cs =~= Seq::<ContentV>::empty());
    } else {
        let h = cs.first();
        let t = cs.drop_first();
        assert(cat_contents(cs) == enc_content(h) + cat_contents(t));
        lemma_window_split(ws, p, enc_content(h), cat_contents(t));
        lemma_dec_enc_content(h, ws, p);
        lemma_dec_enc_content_list(t, ws, p + enc_content(h).len());
        assert(seq![h] + t =~= cs);
    }
}

proof fn lemma_dec_enc_row(r: Seq<u32>, ws: Seq<u64>, p: int)
    requires
        r.len() == BUCKETS,
        0 <= p,
        p + enc_row(r).len() <= ws.len(),
        ws.subrange(p, p + enc_row(r).len() as int) == enc_row(r),
    ensures
        dec_row(ws, p) == Some((r, p + BUCKETS)),
{
    assert(enc_row(r).len() == BUCKETS);
    assert forall|i: int| 0 <= i < BUCKETS implies (#[trigger] ws[p + i]) <= u32::MAX as u64
        && ws[p + i] as u32 == r[i] by {
        assert(ws[p + i] == ws.subrange(p, p + BUCKETS)[i]);
        assert(enc_row(r)[i] == r[i] as u64);
    }
    assert(!(exists|i: int| 0 <= i < BUCKETS && (#[trigger] ws[p + i]) > u32::MAX as u64));
    assert(Seq::new(BUCKETS as nat, |i: int| ws[p + i] as u32) =~= r);
}

proof fn lemma_dec_enc_row_list(rs: Seq<Seq<u32>>, ws: Seq<u64>, p: int)
    requires
        forall|i: int| 0 <= i < rs.len() ==> (#[trigger] rs[i]).len() == BUCKETS,
        0 <= p,
        p + cat_rows(rs).len() <= ws.len(),
        ws.subrange(p, p + cat_rows(rs).len() as int) == cat_rows(rs),
    ensures
        dec_row_list(ws, p, rs.len() as int) == Some((rs, p + cat_rows(rs).len())),
    decreases rs.len(),
{
    if rs.len() == 0 {
        assert(rs =~= Seq::<Seq<u32>>::empty());
    } else {
        let h = rs.first();
        let t = rs.drop_first();
        assert(cat_rows(rs) == enc_row(h) + cat_rows(t));
        lemma_window_split(ws, p, enc_row(h), cat_rows(t));
        lemma_dec_enc_row(h, ws, p);
        lemma_dec_enc_row_list(t, ws, p + enc_row(h).len());
        assert(seq![h] + t =~= rs);
    }
}

proof fn lemma_dec_enc_mat(m: Seq<Seq<u32>>, ws: Seq<u64>, p: int)
    requires
        bounded_mat(m),
        0 <= p,
        p + enc_mat(m).len() <= ws.len(),
        ws.subrange(p, p + enc_mat(m).len() as int) == enc_mat(m),
    ensures
        dec_mat(ws, p) == Some((m, p + enc_mat(m).len())),
{
    lemma_window_split(ws, p, seq![m.len() as u64], cat_rows(m));
    assert(ws[p] == m.len() as u64) by {
        assert(ws[p] == ws.subrange(p, p + 1)[0]);
    }
    lemma_dec_enc_row_list(m, ws, p + 1);
}

proof fn lemma_dec_enc_mat_list(ms: Seq<Seq<Seq<u32>>>, ws: Seq<u64>, p: int)
    requires
        forall|i: int| 0 <= i < ms.len() ==> bounded_mat(#[trigger] ms[i]),
        0 <= p,
        p + cat_mats(ms).len() <= ws.len(),
        ws.subrange(p, p + cat_mats(ms).len() as int) == cat_mats(ms),
    ensures
        dec_mat_list(ws, p, ms.len() as int) == Some((ms, p + cat_mats(ms).len())),
    decreases ms.len(),
{
    if ms.len() == 0 {
        assert(ms =~= Seq::<Seq<Seq<u32>>>::empty());
    } else {
        let h = ms.first();
        let t = ms.drop_first();
        assert(cat_mats(ms) == enc_mat(h) + cat_mats(t));
        lemma_window_split(ws, p, enc_mat(h), cat_mats(t));
        lemma_dec_enc_mat(h, ws, p);
        lemma_dec_enc_mat_list(t, ws, p + enc_mat(h).len());
        assert(seq![h] + t =~= ms);
    }
}

proof fn lemma_dec_enc_chunk(ci: ChunkIndexV, ws: Seq<u64>, p: int)
    requires
        bounded_chunk(ci),
        0 <= p,
        p + enc_chunk(ci).len() <= ws.len(),
        ws.subrange(p, p + enc_chunk(ci).len() as int) == enc_chunk(ci),
    ensures
        dec_chunk(ws, p) == Some((ci, p + enc_chunk(ci).len())),
{
    match ci {
        ChunkIndexV::HashingTrick(ms) => {
            assert(enc_chunk(ci) == (seq![0u64] + seq![ms.len() as u64]) + cat_mats(ms));
            lemma_window_split(ws, p, seq![0u64] + seq![ms.len() as u64], cat_mats(ms));
            assert(ws[p] == 0u64 && ws[p + 1] == ms.len() as u64) by {
                assert(ws[p] == ws.subrange(p, p + 2)[0]);
                assert(ws[p + 1] == ws.subrange(p, p + 2)[1]);
            }
            lemma_dec_enc_mat_list(ms, ws, p + 2);
        },
        ChunkIndexV::Noop => {
            assert(ws[p] == 1u64) by {
                assert(ws[p] == ws.subrange(p, p + 1)[0]);
            }
        },
    }
}

proof fn lemma_dec_enc_index(ix: IndexV, ws: Seq<u64>, p: int)
    requires
        bounded_chunk(ix.index),
        0 <= p,
        p + enc_index(ix).len() <= ws.len(),
        ws.subrange(p, p + enc_index(ix).len() as int) == enc_index(ix),
    ensures
        dec_index(ws, p) == Some((ix, p + enc_index(ix).len())),
{
    lemma_window_split(ws, p, seq![ix.train_time_ms], enc_chunk(ix.index));
    assert(ws[p] == ix.train_time_ms) by {
        assert(ws[p] == ws.subrange(p, p + 1)[0]);
    }
    lemma_dec_enc_chunk(ix.index, ws, p + 1);
}

proof fn lemma_dec_enc_pair(pr: (Seq<char>, IndexV), ws: Seq<u64>, p: int)
    requires
        bounded_pair(pr),
        0 <= p,
        p + enc_pair(pr).len() <= ws.len(),
        ws.subrange(p, p + enc_pair(pr).len() as int) == enc_pair(pr),
    ensures
        dec_pair(ws, p) == Some((pr, p + enc_pair(pr).len())),
{
    lemma_window_split(ws, p, enc_str(pr.0), enc_index(pr.1));
    lemma_dec_enc_str(pr.0, ws, p);
    lemma_dec_enc_index(pr.1, ws, p + enc_str(pr.0).len());
    assert((pr.0, pr.1) == pr);
}

proof fn lemma_dec_enc_pair_list(ps: Seq<(Seq<char>, IndexV)>, ws: Seq<u64>, p: int)
    requires
        forall|i: int| 0 <= i < ps.len() ==> bounded_pair(#[trigger] ps[i]),
        0 <= p,
        p + cat_pairs(ps).len() <= ws.len(),
        ws.subrange(p, p + cat_pairs(ps).len() as int) == cat_pairs(ps),
    ensures
        dec_pair_list(ws, p, ps.len() as int) == Some((ps, p + cat_pairs(ps).len())),
    decreases ps.len(),
{
    if ps.len() == 0 {
        assert(ps =~= Seq::<(Seq<char>, IndexV)>::empty());
    } else {
        let h = ps.first();
        let t = ps.drop_first();
        assert(cat_pairs(ps) == enc_pair(h) + cat_pairs(t));
        lemma_window_split(ws, p, enc_pair(h), cat_pairs(t));
        lemma_dec_enc_pair(h, ws, p);
        lemma_dec_enc_pair_list(t, ws, p + enc_pair(h).len());
        assert(seq![h] + t =~= ps);
    }
}

/// Law: decoding inverts encoding. For every bounded model value, the word
/// stream `enc_model` produces decodes back to exactly that value, so a
/// saved model loads back with identical state — and therefore identical
/// search behaviour.
pub proof fn lemma_dec_enc_model(m: ModelV, ws: Seq<u64>, p: int)
    requires
        bounded_model(m),
        0 <= p,
        p + enc_model(m).len() <= ws.len(),
        ws.subrange(p, p + enc_model(m).len() as int) == enc_model(m),
    ensures
        dec_model(ws, p) == Some((m, p + enc_model(m).len())),
{
    let e1 = seq![m.created_at_ms] + seq![m.baselines.len() as u64];
    let e2 = cat_contents(m.baselines);
    let e3 = seq![m.indexes.len() as u64];
    let e4 = cat_pairs(m.indexes);
    assert(enc_model(m) == ((e1 + e2) + e3) + e4);
    lemma_window_split(ws, p, (e1 + e2) + e3, e4);
    lemma_window_split(ws, p, e1 + e2, e3);
    lemma_window_split(ws, p, e1, e2);
    assert(ws[p] == m.created_at_ms && ws[p + 1] == m.baselines.len() as u64) by {
        assert(ws[p] == ws.subrange(p, p + 2)[0]);
        assert(ws[p + 1] == ws.subrange(p, p + 2)[1]);
    }
    let q = p + 2 + e2.len();
    assert(ws[q] == m.indexes.len() as u64) by {
        assert(ws[q] == ws.subrange(q, q + 1)[0]);
    }
    lemma_dec_enc_content_list(m.baselines, ws, p + 2);
    lemma_dec_enc_pair_list(m.indexes, ws, q + 1);
}

// ---------------------------------------------------------------------------
// Exec encoders
// ---------------------------------------------------------------------------

fn push_str(out: &mut Vec<u64>, s: &str)
    ensures
        final(out)@ == old(out)@ + enc_str(s@),
        bounded_str(s@),
{
    let ghost base = out@;
    let n = s.unicode_len();
    out.push(n as u64);
    proof {
        assert(out@ =~= base.push(n as u64) + s@.subrange(0, 0).map_values(
            |c: char| (c as u32) as u64,
        ));
    }
    let mut i: usize = 0;
    while i < n
        invariant
            i <= n,
            n == s@.len(),
            out@ == base.push(n as u64) + s@.subrange(0, i as int).map_values(
                |c: char| (c as u32) as u64,
            ),
        decreases n - i,
    {
        let c = s.get_char(i);
        out.push((c as u32) as u64);
        proof {
            assert(out@ =~= base.push(n as u64) + s@.subrange(0, i + 1).map_values(
                |c: char| (c as u32) as u64,
            ));
        }
        i += 1;
    }
    proof {
        assert(s@.subrange(0, n as int) =~= s@);
        assert(out@ =~= base + enc_str(s@));
    }
}

fn push_src(out: &mut Vec<u64>, s: &Source)
    ensures
        final(out)@ == old(out)@ + enc_src(s@),
        bounded_src(s@),
{
    let ghost base = out@;
    match s {
        Source::Local(p, t) => {
            out.push(0u64);
            out.push(*p as u64);
            push_str(out, t.as_str());
            proof {
                assert(out@ =~= base + enc_src(s@));
            }
        },
        Source::Remote(p, t) => {
            out.push(1u64);
            out.push(*p as u64);
            push_str(out, t.as_str());
            proof {
                assert(out@ =~= base + enc_src(s@));
            }
        },
    }
}

fn push_build(out: &mut Vec<u64>, b: &Build)
    ensures
        final(out)@ == old(out)@ + enc_build(b@),
        bounded_str(b@.uuid) && bounded_str(b@.job_name) && bounded_str(b@.log_url),
{
    let ghost base = out@;
    push_str(out, b.uuid.as_str());
    push_str(out, b.job_name.as_str());
    push_str(out, b.log_url.as_str());
    proof {
        assert(out@ =~= base + enc_build(b@));
    }
}

fn push_content(out: &mut Vec<u64>, c: &Content)
    ensures
        final(out)@ == old(out)@ + enc_content(c@),
        bounded_content(c@),
{
    let ghost base = out@;
    match c {
        Content::File(s) => {
            out.push(0u64);
            push_src(out, s);
            proof {
                assert(out@ =~= base + enc_content(c@));
            }
        },
        Content::Directory(s) => {
            out.push(1u64);
            push_src(out, s);
            proof {
                assert(out@ =~= base + enc_content(c@));
            }
        },
        Content::Zuul(b) => {
            out.push(2u64);
            push_build(out, b);
            proof {
                assert(out@ =~= base + enc_content(c@));
            }
        },
    }
}

fn push_content_list(out: &mut Vec<u64>, cs: &Vec<Content>, i: usize)
    requires
        i <= cs@.len(),
    ensures
        final(out)@ == old(out)@ + cat_contents(cs.deep_view().skip(i as int)),
        forall|j: int|
            i <= j < cs.deep_view().len() ==> bounded_content(#[trigger] cs.deep_view()[j]),
    decreases cs@.len() - i,
{
    let ghost base = out@;
    let ghost dv = cs.deep_view();
    if i < cs.len() {
        push_content(out, &cs[i]);
        push_content_list(out, cs, i + 1);
        proof {
            assert(dv.skip(i as int).first() == dv[i as int]);
            assert(dv.skip(i as int).drop_first() =~= dv.skip(i as int + 1));
            assert(cat_contents(dv.skip(i as int)) == enc_content(dv[i as int]) + cat_contents(
                dv.skip(i as int + 1),
            ));
            assert(out@ =~= base + cat_contents(dv.skip(i as int)));
        }
    } else {
        proof {
            assert(dv.skip(i as int) =~= Seq::<ContentV>::empty());
            assert(out@ =~= base + cat_contents(dv.skip(i as int)));
        }
    }
}

fn push_row(out: &mut Vec<u64>, r: &Vec<u32>)
    requires
        r@.len() == BUCKETS,
    ensures
        final(out)@ == old(out)@ + enc_row(r@),
{
    let ghost base = out@;
    let mut i: usize = 0;
    proof {
        assert(out@ =~= base + r@.subrange(0, 0).map_values(|x: u32| x as u64));
    }
    while i < BUCKETS
        invariant
            i <= BUCKETS,
            r@.len() == BUCKETS,
            out@ == base + r@.subrange(0, i as int).map_values(|x: u32| x as u64),
        decreases BUCKETS - i,
    {
        out.push(r[i] as u64);
        proof {
            assert(out@ =~= base + r@.subrange(0, i + 1).map_values(|x: u32| x as u64));
        }
        i += 1;
    }
    proof {
        assert(r@.subrange(0, BUCKETS as int) =~= r@);
    }
}

fn push_mat(out: &mut Vec<u64>, m: &FeaturesMatrix)
    requires
        forall|i: int| 0 <= i < m@.len() ==> (#[trigger] m@[i]).len() == BUCKETS,
    ensures
        final(out)@ == old(out)@ + enc_mat(m@),
        bounded_mat(m@),
{
    let ghost base = out@;
    let n = m.0.len();
    out.push(n as u64);
    proof {
        assert(m.0@.len() == m@.len());
        assert(m@.skip(0) =~= m@);
    }
    push_row_list(out, &m.0, 0);
    proof {
        assert(out@ =~= base + enc_mat(m@));
    }
}

fn push_row_list(out: &mut Vec<u64>, rs: &Vec<Vec<u32>>, i: usize)
    requires
        i <= rs@.len(),
        forall|j: int| 0 <= j < rs.deep_view().len() ==> (#[trigger] rs.deep_view()[j]).len()
            == BUCKETS,
    ensures
        final(out)@ == old(out)@ + cat_rows(rs.deep_view().skip(i as int)),
    decreases rs@.len() - i,
{
    let ghost base = out@;
    let ghost dv = rs.deep_view();
    if i < rs.len() {
        proof {
            assert(rs@[i as int].deep_view() == dv[i as int]);
            assert(rs@[i as int]@ =~= dv[i as int]);
        }
        push_row(out, &rs[i]);
        push_row_list(out, rs, i + 1);
        proof {
            assert(dv.skip(i as int).first() == dv[i as int]);
            assert(dv.skip(i as int).drop_first() =~= dv.skip(i as int + 1));
            assert(out@ =~= base + cat_rows(dv.skip(i as int)));
        }
    } else {
        proof {
            assert(dv.skip(i as int) =~= Seq::<Seq<u32>>::empty());
            assert(out@ =~= base + cat_rows(dv.skip(i as int)));
        }
    }
}

fn push_mat_list(out: &mut Vec<u64>, ms: &Vec<FeaturesMatrix>, i: usize)
    requires
        i <= ms@.len(),
        forall|j: int, k: int|
            0 <= j < ms.deep_view().len() && 0 <= k < ms.deep_view()[j].len() ==> (
            #[trigger] ms.deep_view()[j][k]).len() == BUCKETS,
    ensures
        final(out)@ == old(out)@ + cat_mats(ms.deep_view().skip(i as int)),
        forall|j: int| i <= j < ms.deep_view().len() ==> bounded_mat(#[trigger] ms.deep_view()[j]),
    decreases ms@.len() - i,
{
    let ghost base = out@;
    let ghost dv = ms.deep_view();
    if i < ms.len() {
        proof {
            assert(ms@[i as int].deep_view() == dv[i as int]);
            assert(ms@[i as int]@ =~= dv[i as int]);
            assert(forall|k: int|
                0 <= k < ms@[i as int]@.len() ==> (#[trigger] ms@[i as int]@[k]).len() == BUCKETS);
        }
        push_mat(out, &ms[i]);
        push_mat_list(out, ms, i + 1);
        proof {
            assert(dv.skip(i as int).first() == dv[i as int]);
            assert(dv.skip(i as int).drop_first() =~= dv.skip(i as int + 1));
            assert(out@ =~= base + cat_mats(dv.skip(i as int)));
        }
    } else {
        proof {
            assert(dv.skip(i as int) =~= Seq::<Seq<Seq<u32>>>::empty());
            assert(out@ =~= base + cat_mats(dv.skip(i as int)));
        }
    }
}

fn push_chunk(out: &mut Vec<u64>, ci: &ChunkIndex)
    requires
        crate::index::ci_wf(ci@),
    ensures
        final(out)@ == old(out)@ + enc_chunk(ci@),
        bounded_chunk(ci@),
{
    let ghost base = out@;
    match ci {
        ChunkIndex::HashingTrick(h) => {
            out.push(0u64);
            let n = h.baselines.len();
            out.push(n as u64);
            proof {
                assert(h.baselines@.len() == h@.len());
                assert(h@.skip(0) =~= h@);
            }
            push_mat_list(out, &h.baselines, 0);
            proof {
                assert(out@ =~= base + enc_chunk(ci@));
            }
        },
        ChunkIndex::Noop => {
            out.push(1u64);
            proof {
                assert(out@ =~= base + enc_chunk(ci@));
            }
        },
    }
}

fn push_index(out: &mut Vec<u64>, ix: &Index)
    requires
        crate::index::ci_wf(ix@.index),
    ensures
        final(out)@ == old(out)@ + enc_index(ix@),
        bounded_chunk(ix@.index),
{
    let ghost base = out@;
    out.push(ix.train_time_ms);
    push_chunk(out, &ix.index);
    proof {
        assert(out@ =~= base + enc_index(ix@));
    }
}

fn push_pair_list(out: &mut Vec<u64>, ps: &Vec<(IndexName, Index)>, i: usize)
    requires
        i <= ps@.len(),
        forall|j: int|
            0 <= j < ps.deep_view().len() ==> crate::index::ci_wf(
                (#[trigger] ps.deep_view()[j]).1.index,
            ),
    ensures
        final(out)@ == old(out)@ + cat_pairs(ps.deep_view().skip(i as int)),
        forall|j: int| i <= j < ps.deep_view().len() ==> bounded_pair(#[trigger] ps.deep_view()[j]),
    decreases ps@.len() - i,
{
    let ghost base = out@;
    let ghost dv = ps.deep_view();
    if i < ps.len() {
        proof {
            assert(ps@[i as int].0@ == dv[i as int].0);
            assert(ps@[i as int].1@ == dv[i as int].1);
        }
        push_str(out, ps[i].0.as_str());
        push_index(out, &ps[i].1);
        push_pair_list(out, ps, i + 1);
        proof {
            assert(dv.skip(i as int).first() == dv[i as int]);
            assert(dv.skip(i as int).drop_first() =~= dv.skip(i as int + 1));
            assert(enc_pair(dv[i as int]) == enc_str(dv[i as int].0) + enc_index(dv[i as int].1));
            assert(out@ =~= base + cat_pairs(dv.skip(i as int)));
        }
    } else {
        proof {
            assert(dv.skip(i as int) =~= Seq::<(Seq<char>, IndexV)>::empty());
            assert(out@ =~= base + cat_pairs(dv.skip(i as int)));
        }
    }
}

fn enc_model_words(m: &crate::model::Model) -> (r: Vec<u64>)
    requires
        crate::model::model_wf(m@),
    ensures
        r@ == enc_model(m@),
        bounded_model(m@),
{
    let mut out: Vec<u64> = Vec::new();
    out.push(m.created_at_ms);
    out.push(m.baselines.len() as u64);
    proof {
        assert(m.baselines@.len() == m@.baselines.len());
        assert(m@.baselines.skip(0) =~= m@.baselines);
    }
    push_content_list(&mut out, &m.baselines, 0);
    out.push(m.indexes.len() as u64);
    proof {
        assert(m.indexes@.len() == m@.indexes.len());
        assert(m@.indexes.skip(0) =~= m@.indexes);
    }
    push_pair_list(&mut out, &m.indexes, 0);
    proof {
        assert(out@ =~= enc_model(m@));
    }
    out
}

// ---------------------------------------------------------------------------
// Exec decoders
// ---------------------------------------------------------------------------

/// Relies on char::from_u32: `Some` for every Unicode scalar value and
/// `None` for everything else, returning the character of that code point.
#[verifier::external_body]
fn char_from_u32(v: u32) -> (r: Option<char>)
    ensures
        (r is Some) == is_scalar(v),
        r matches Some(c) ==> c as u32 == v,
{
    char::from_u32(v)
}

fn dec_str_x(ws: &Vec<u64>, p: usize) -> (r: Option<(String, usize)>)
    ensures
        (r is Some) == (dec_str(ws@, p as int) is Some),
        r matches Some(pr) ==> dec_str(ws@, p as int) == Some((pr.0@, pr.1 as int)),
{
    let len = ws.len();
    if p >= len {
        return None;
    }
    let n64 = ws[p];
    if n64 > (len - (p + 1)) as u64 {
        proof {
            assert(dec_str(ws@, p as int) is None);
        }
        return None;
    }
    let n = n64 as usize;
    let mut out = String::new();
    let mut i: usize = 0;
    while i < n
        invariant
            p + 1 + n <= ws@.len(),
            ws@.len() <= usize::MAX,
            i <= n,
            n as u64 == ws@[p as int],
            forall|j: int| 0 <= j < i ==> valid_char_word(#[trigger] ws@[p + 1 + j]),
            out@ == Seq::new(i as nat, |j: int| word_char(ws@[p + 1 + j])),
        decreases n - i,
    {
        let w = ws[p + 1 + i];
        if w > 0xFFFF_FFFFu64 {
            proof {
                assert(!valid_char_word(ws@[p as int + 1 + i as int]));
                assert(dec_str(ws@, p as int) is None);
            }
            return None;
        }
        match char_from_u32(w as u32) {
            None => {
                proof {
                    assert(!valid_char_word(ws@[p as int + 1 + i as int]));
                    assert(dec_str(ws@, p as int) is None);
                }
                return None;
            },
            Some(c) => {
                push_char(&mut out, c);
                proof {
                    char_u32_cast(c, w as u32);
                    assert(word_char(ws@[p as int + 1 + i as int]) == c);
                    assert(out@ =~= Seq::new((i + 1) as nat, |j: int| word_char(ws@[p + 1 + j])));
                }
            },
        }
        i += 1;
    }
    proof {
        assert(!(exists|j: int| 0 <= j < n && !valid_char_word(#[trigger] ws@[p + 1 + j])));
        assert(dec_str(ws@, p as int) == Some((out@, (p + 1 + n) as int)));
    }
    Some((out, p + 1 + n))
}

fn dec_src_x(ws: &Vec<u64>, p: usize) -> (r: Option<(Source, usize)>)
    ensures
        (r is Some) == (dec_src(ws@, p as int) is Some),
        r matches Some(pr) ==> dec_src(ws@, p as int) == Some((pr.0@, pr.1 as int)),
{
    if p >= ws.len() || p + 1 >= ws.len() {
        return None;
    }
    let tag = ws[p];
    if tag != 0 && tag != 1 {
        return None;
    }
    let pre64 = ws[p + 1];
    if pre64 > usize::MAX as u64 {
        return None;
    }
    let pre = pre64 as usize;
    match dec_str_x(ws, p + 2) {
        None => None,
        Some((t, q)) => {
            if tag == 0 {
                Some((Source::Local(pre, t), q))
            } else {
                Some((Source::Remote(pre, t), q))
            }
        },
    }
}

fn dec_build_x(ws: &Vec<u64>, p: usize) -> (r: Option<(Build, usize)>)
    ensures
        (r is Some) == (dec_build(ws@, p as int) is Some),
        r matches Some(pr) ==> dec_build(ws@, p as int) == Some((pr.0@, pr.1 as int)),
{
    match dec_str_x(ws, p) {
        None => None,
        Some((uuid, q1)) => match dec_str_x(ws, q1) {
            None => None,
            Some((job_name, q2)) => match dec_str_x(ws, q2) {
                None => None,
                Some((log_url, q3)) => Some((Build { uuid, job_name, log_url }, q3)),
            },
        },
    }
}

fn dec_content_x(ws: &Vec<u64>, p: usize) -> (r: Option<(Content, usize)>)
    ensures
        (r is Some) == (dec_content(ws@, p as int) is Some),
        r matches Some(pr) ==> dec_content(ws@, p as int) == Some((pr.0@, pr.1 as int)),
{
    if p >= ws.len() {
        return None;
    }
    let tag = ws[p];
    if tag == 0 {
        match dec_src_x(ws, p + 1) {
            None => None,
            Some((s, q)) => Some((Content::File(s), q)),
        }
    } else if tag == 1 {
        match dec_src_x(ws, p + 1) {
            None => None,
            Some((s, q)) => Some((Content::Directory(s), q)),
        }
    } else if tag == 2 {
        match dec_build_x(ws, p + 1) {
            None => None,
            Some((b, q)) => Some((Content::Zuul(b), q)),
        }
    } else {
        None
    }
}

fn dec_content_list_x(ws: &Vec<u64>, p: usize, n: usize) -> (r: Option<(Vec<Content>, usize)>)
    ensures
        (r is Some) == (dec_content_list(ws@, p as int, n as int) is Some),
        r matches Some(pr) ==> dec_content_list(ws@, p as int, n as int) == Some(
            (pr.0.deep_view(), pr.1 as int),
        ),
    decreases n,
{
    if n == 0 {
        let empty: Vec<Content> = Vec::new();
        proof {
            assert(empty.deep_view() =~= Seq::<ContentV>::empty());
        }
        Some((empty, p))
    } else {
        match dec_content_x(ws, p) {
            None => None,
            Some((c, q)) => match dec_content_list_x(ws, q, n - 1) {
                None => None,
                Some((mut cs, e)) => {
                    let ghost pre = cs.deep_view();
                    cs.insert(0, c);
                    proof {
                        assert(cs.deep_view() =~= seq![c@] + pre);
                    }
                    Some((cs, e))
                },
            },
        }
    }
}

fn dec_row_x(ws: &Vec<u64>, p: usize) -> (r: Option<(Vec<u32>, usize)>)
    ensures
        (r is Some) == (dec_row(ws@, p as int) is Some),
        r matches Some(pr) ==> dec_row(ws@, p as int) == Some((pr.0@, pr.1 as int)),
{
    if p >= ws.len() || BUCKETS > ws.len() - p {
        return None;
    }
    let mut out: Vec<u32> = Vec::new();
    let mut i: usize = 0;
    while i < BUCKETS
        invariant
            p + BUCKETS <= ws@.len(),
            ws@.len() <= usize::MAX,
            i <= BUCKETS,
            forall|j: int| 0 <= j < i ==> (#[trigger] ws@[p + j]) <= u32::MAX as u64,
            out@ == Seq::new(i as nat, |j: int| ws@[p + j] as u32),
        decreases BUCKETS - i,
    {
        let w = ws[p + i];
        if w > 0xFFFF_FFFFu64 {
            proof {
                assert(ws@[p as int + i as int] > u32::MAX as u64);
                assert(dec_row(ws@, p as int) is None);
            }
            return None;
        }
        out.push(w as u32);
        proof {
            assert(out@ =~= Seq::new((i + 1) as nat, |j: int| ws@[p + j] as u32));
        }
        i += 1;
    }
    proof {
        assert(!(exists|j: int| 0 <= j < BUCKETS && (#[trigger] ws@[p + j]) > u32::MAX as u64));
        assert(dec_row(ws@, p as int) == Some((out@, (p + BUCKETS) as int)));
    }
    Some((out, p + BUCKETS))
}

fn dec_row_list_x(ws: &Vec<u64>, p: usize, n: usize) -> (r: Option<(Vec<Vec<u32>>, usize)>)
    ensures
        (r is Some) == (dec_row_list(ws@, p as int, n as int) is Some),
        r matches Some(pr) ==> dec_row_list(ws@, p as int, n as int) == Some(
            (pr.0.deep_view(), pr.1 as int),
        ),
    decreases n,
{
    if n == 0 {
        let empty: Vec<Vec<u32>> = Vec::new();
        proof {
            assert(empty.deep_view() =~= Seq::<Seq<u32>>::empty());
        }
        Some((empty, p))
    } else {
        match dec_row_x(ws, p) {
            None => None,
            Some((row, q)) => match dec_row_list_x(ws, q, n - 1) {
                None => None,
                Some((mut rs, e)) => {
                    let ghost pre = rs.deep_view();
                    let ghost rv = row@;
                    rs.insert(0, row);
                    proof {
                        assert(rs.deep_view() =~~= seq![rv] + pre);
                    }
                    Some((rs, e))
                },
            },
        }
    }
}

proof fn lemma_dec_row_list_progress(ws: Seq<u64>, p: int, n: int)
    requires
        0 <= p <= ws.len(),
        0 <= n,
        dec_row_list(ws, p, n) is Some,
    ensures
        p + n <= dec_row_list(ws, p, n)->Some_0.1 <= ws.len(),
    decreases n,
{
    if n > 0 {
        let (r0, q) = dec_row(ws, p)->Some_0;
        assert(q == p + BUCKETS && q <= ws.len());
        lemma_dec_row_list_progress(ws, q, n - 1);
    }
}

proof fn lemma_dec_mat_list_progress(ws: Seq<u64>, p: int, n: int)
    requires
        0 <= p <= ws.len(),
        0 <= n,
        dec_mat_list(ws, p, n) is Some,
    ensures
        p + n <= dec_mat_list(ws, p, n)->Some_0.1 <= ws.len(),
    decreases n,
{
    if n > 0 {
        let (m0, q) = dec_mat(ws, p)->Some_0;
        assert(p < ws.len());
        lemma_dec_row_list_progress(ws, p + 1, ws[p] as int);
        assert(p + 1 <= q <= ws.len());
        lemma_dec_mat_list_progress(ws, q, n - 1);
    }
}

proof fn lemma_dec_content_list_progress(ws: Seq<u64>, p: int, n: int)
    requires
        0 <= p <= ws.len(),
        0 <= n,
        dec_content_list(ws, p, n) is Some,
    ensures
        p + n <= dec_content_list(ws, p, n)->Some_0.1 <= ws.len(),
    decreases n,
{
    if n > 0 {
        let (c0, q) = dec_content(ws, p)->Some_0;
        assert(p + 1 <= q <= ws.len());
        lemma_dec_content_list_progress(ws, q, n - 1);
    }
}

proof fn lemma_dec_pair_list_progress(ws: Seq<u64>, p: int, n: int)
    requires
        0 <= p <= ws.len(),
        0 <= n,
        dec_pair_list(ws, p, n) is Some,
    ensures
        p + n <= dec_pair_list(ws, p, n)->Some_0.1 <= ws.len(),
    decreases n,
{
    if n > 0 {
        let (pr0, q) = dec_pair(ws, p)->Some_0;
        let (name, q1) = dec_str(ws, p)->Some_0;
        assert(p + 1 <= q1 <= ws.len());
        let (ci, q2) = dec_chunk(ws, q1 + 1)->Some_0;
        assert(q1 + 1 < ws.len());
        if ws[q1 + 1] == 0 {
            lemma_dec_mat_list_progress(ws, q1 + 3, ws[q1 + 2] as int);
        }
        assert(p + 1 <= q <= ws.len());
        lemma_dec_pair_list_progress(ws, q, n - 1);
    }
}

fn dec_mat_x(ws: &Vec<u64>, p: usize) -> (r: Option<(FeaturesMatrix, usize)>)
    ensures
        (r is Some) == (dec_mat(ws@, p as int) is Some),
        r matches Some(pr) ==> dec_mat(ws@, p as int) == Some((pr.0@, pr.1 as int)),
{
    if p >= ws.len() {
        return None;
    }
    let n64 = ws[p];
    if n64 > usize::MAX as u64 {
        proof {
            if dec_row_list(ws@, p as int + 1, ws@[p as int] as int) is Some {
                lemma_dec_row_list_progress(ws@, p as int + 1, ws@[p as int] as int);
            }
        }
        return None;
    }
    match dec_row_list_x(ws, p + 1, n64 as usize) {
        None => None,
        Some((rs, q)) => Some((FeaturesMatrix(rs), q)),
    }
}

fn dec_mat_list_x(ws: &Vec<u64>, p: usize, n: usize) -> (r: Option<(Vec<FeaturesMatrix>, usize)>)
    ensures
        (r is Some) == (dec_mat_list(ws@, p as int, n as int) is Some),
        r matches Some(pr) ==> dec_mat_list(ws@, p as int, n as int) == Some(
            (pr.0.deep_view(), pr.1 as int),
        ),
    decreases n,
{
    if n == 0 {
        let empty: Vec<FeaturesMatrix> = Vec::new();
        proof {
            assert(empty.deep_view() =~= Seq::<Seq<Seq<u32>>>::empty());
        }
        Some((empty, p))
    } else {
        match dec_mat_x(ws, p) {
            None => None,
            Some((m, q)) => match dec_mat_list_x(ws, q, n - 1) {
                None => None,
                Some((mut ms, e)) => {
                    let ghost pre = ms.deep_view();
                    let ghost mv = m@;
                    ms.insert(0, m);
                    proof {
                        assert(ms.deep_view() =~= seq![mv] + pre);
                    }
                    Some((ms, e))
                },
            },
        }
    }
}

fn dec_chunk_x(ws: &Vec<u64>, p: usize) -> (r: Option<(ChunkIndex, usize)>)
    ensures
        (r is Some) == (dec_chunk(ws@, p as int) is Some),
        r matches Some(pr) ==> dec_chunk(ws@, p as int) == Some((pr.0@, pr.1 as int)),
{
    if p >= ws.len() {
        return None;
    }
    let tag = ws[p];
    if tag == 0 {
        if p + 1 >= ws.len() {
            return None;
        }
        let n64 = ws[p + 1];
        if n64 > usize::MAX as u64 {
            proof {
                if dec_mat_list(ws@, p as int + 2, ws@[p as int + 1] as int) is Some {
                    lemma_dec_mat_list_progress(ws@, p as int + 2, ws@[p as int + 1] as int);
                }
            }
            return None;
        }
        match dec_mat_list_x(ws, p + 2, n64 as usize) {
            None => None,
            Some((ms, q)) => Some((ChunkIndex::HashingTrick(HashingIndex { baselines: ms }), q)),
        }
    } else if tag == 1 {
        Some((ChunkIndex::Noop, p + 1))
    } else {
        None
    }
}

fn dec_index_x(ws: &Vec<u64>, p: usize) -> (r: Option<(Index, usize)>)
    ensures
        (r is Some) == (dec_index(ws@, p as int) is Some),
        r matches Some(pr) ==> dec_index(ws@, p as int) == Some((pr.0@, pr.1 as int)),
{
    if p >= ws.len() {
        return None;
    }
    let train_time_ms = ws[p];
    match dec_chunk_x(ws, p + 1) {
        None => None,
        Some((ci, q)) => Some((Index { train_time_ms, index: ci }, q)),
    }
}

fn dec_pair_x(ws: &Vec<u64>, p: usize) -> (r: Option<((IndexName, Index), usize)>)
    ensures
        (r is Some) == (dec_pair(ws@, p as int) is Some),
        r matches Some(pr) ==> dec_pair(ws@, p as int) == Some(
            ((pr.0.0@, pr.0.1@), pr.1 as int),
        ),
{
    match dec_str_x(ws, p) {
        None => None,
        Some((name, q)) => match dec_index_x(ws, q) {
            None => None,
            Some((ix, e)) => Some(((IndexName(name), ix), e)),
        },
    }
}

fn dec_pair_list_x(ws: &Vec<u64>, p: usize, n: usize) -> (r: Option<
    (Vec<(IndexName, Index)>, usize),
>)
    ensures
        (r is Some) == (dec_pair_list(ws@, p as int, n as int) is Some),
        r matches Some(pr) ==> dec_pair_list(ws@, p as int, n as int) == Some(
            (pr.0.deep_view(), pr.1 as int),
        ),
    decreases n,
{
    if n == 0 {
        let empty: Vec<(IndexName, Index)> = Vec::new();
        proof {
            assert(empty.deep_view() =~= Seq::<(Seq<char>, IndexV)>::empty());
        }
        Some((empty, p))
    } else {
        match dec_pair_x(ws, p) {
            None => None,
            Some((pr, q)) => match dec_pair_list_x(ws, q, n - 1) {
                None => None,
                Some((mut ps, e)) => {
                    let ghost pre = ps.deep_view();
                    let ghost pv = (pr.0@, pr.1@);
                    ps.insert(0, pr);
                    proof {
                        assert(ps.deep_view() =~= seq![pv] + pre);
                    }
                    Some((ps, e))
                },
            },
        }
    }
}

fn dec_model_x(ws: &Vec<u64>, p: usize) -> (r: Option<(crate::model::Model, usize)>)
    ensures
        (r is Some) == (dec_model(ws@, p as int) is Some),
        r matches Some(pr) ==> dec_model(ws@, p as int) == Some((pr.0@, pr.1 as int)),
{
    if p >= ws.len() {
        return None;
    }
    let created_at_ms = ws[p];
    if p + 1 >= ws.len() {
        return None;
    }
    let b64 = ws[p + 1];
    if b64 > usize::MAX as u64 {
        proof {
            if dec_content_list(ws@, p as int + 2, ws@[p as int + 1] as int) is Some {
                lemma_dec_content_list_progress(ws@, p as int + 2, ws@[p as int + 1] as int);
            }
        }
        return None;
    }
    let baselines = match dec_content_list_x(ws, p + 2, b64 as usize) {
        None => {
            return None;
        },
        Some(v) => v,
    };
    let (baselines, q) = baselines;
    if q >= ws.len() {
        return None;
    }
    let p64 = ws[q];
    if p64 > usize::MAX as u64 {
        proof {
            if dec_pair_list(ws@, q as int + 1, ws@[q as int] as int) is Some {
                lemma_dec_content_list_progress(ws@, p as int + 2, ws@[p as int + 1] as int);
                lemma_dec_pair_list_progress(ws@, q as int + 1, ws@[q as int] as int);
            }
        }
        return None;
    }
    match dec_pair_list_x(ws, q + 1, p64 as usize) {
        None => None,
        Some((indexes, e)) => Some(
            (crate::model::Model { created_at_ms, baselines, indexes }, e),
        ),
    }
}

// ---------------------------------------------------------------------------
// Persistence
// ---------------------------------------------------------------------------

/// Checks that the group keys of a decoded index list are pairwise distinct.
fn keys_distinct(indexes: &Vec<(IndexName, Index)>) -> (r: bool)
    ensures
        r == forall|i: int, j: int|
            0 <= i < j < indexes.deep_view().len() ==> (#[trigger] indexes.deep_view()[i]).0 != (
            #[trigger] indexes.deep_view()[j]).0,
{
    let n = indexes.len();
    let mut i: usize = 0;
    while i < n
        invariant
            i <= n,
            n == indexes@.len(),
            forall|a: int, b: int|
                0 <= a < b < indexes.deep_view().len() && a < i ==> (
                #[trigger] indexes.deep_view()[a]).0 != (#[trigger] indexes.deep_view()[b]).0,
        decreases n - i,
    {
        let mut j: usize = i + 1;
        while j < n
            invariant
                i < j <= n,
                n == indexes@.len(),
                forall|b: int|
                    i < b < j ==> (#[trigger] indexes.deep_view()[b]).0 != indexes.deep_view()[
                        i as int
                    ].0,
            decreases n - j,
        {
            if indexes[i].0.0 == indexes[j].0.0 {
                proof {
                    assert(indexes.deep_view()[i as int].0 == indexes@[i as int].0@);
                    assert(indexes.deep_view()[j as int].0 == indexes@[j as int].0@);
                }
                return false;
            }
            j += 1;
        }
        i += 1;
    }
    true
}

proof fn lemma_dec_row_list_wf(ws: Seq<u64>, p: int, n: int)
    requires
        dec_row_list(ws, p, n) is Some,
    ensures
        forall|i: int|
            0 <= i < dec_row_list(ws, p, n)->Some_0.0.len() ==> (#[trigger] dec_row_list(
                ws,
                p,
                n,
            )->Some_0.0[i]).len() == BUCKETS,
    decreases n,
{
    if n > 0 {
        let (r0, q) = dec_row(ws, p)->Some_0;
        lemma_dec_row_list_wf(ws, q, n - 1);
    }
}

proof fn lemma_dec_mat_list_wf(ws: Seq<u64>, p: int, n: int)
    requires
        dec_mat_list(ws, p, n) is Some,
    ensures
        forall|i: int|
            0 <= i < dec_mat_list(ws, p, n)->Some_0.0.len() ==> crate::hashing_index::mat_wf(
                #[trigger] dec_mat_list(ws, p, n)->Some_0.0[i],
            ),
    decreases n,
{
    if n > 0 {
        let (m0, q) = dec_mat(ws, p)->Some_0;
        lemma_dec_row_list_wf(ws, p + 1, ws[p] as int);
        lemma_dec_mat_list_wf(ws, q, n - 1);
    }
}

proof fn lemma_dec_chunk_wf(ws: Seq<u64>, p: int)
    requires
        dec_chunk(ws, p) is Some,
    ensures
        crate::index::ci_wf(dec_chunk(ws, p)->Some_0.0),
{
    if ws[p] == 0 {
        lemma_dec_mat_list_wf(ws, p + 2, ws[p + 1] as int);
    }
}

proof fn lemma_dec_pair_list_wf(ws: Seq<u64>, p: int, n: int)
    requires
        dec_pair_list(ws, p, n) is Some,
    ensures
        forall|i: int|
            0 <= i < dec_pair_list(ws, p, n)->Some_0.0.len() ==> crate::index::ci_wf(
                (#[trigger] dec_pair_list(ws, p, n)->Some_0.0[i]).1.index,
            ),
    decreases n,
{
    if n > 0 {
        let (pr0, q) = dec_pair(ws, p)->Some_0;
        let (name, q1) = dec_str(ws, p)->Some_0;
        lemma_dec_chunk_wf(ws, q1 + 1);
        lemma_dec_pair_list_wf(ws, q, n - 1);
    }
}

proof fn lemma_dec_model_wf(ws: Seq<u64>, p: int)
    requires
        dec_model(ws, p) is Some,
    ensures
        forall|i: int|
            0 <= i < dec_model(ws, p)->Some_0.0.indexes.len() ==> crate::index::ci_wf(
                (#[trigger] dec_model(ws, p)->Some_0.0.indexes[i]).1.index,
            ),
{
    let (bs, q) = dec_contents(ws, p + 1)->Some_0;
    lemma_dec_pair_list_wf(ws, q + 1, ws[q] as int);
}

impl crate::model::Model {
    /// Serializes the whole model into one compressed binary artifact:
    /// the word-level encoding of the model, gzip-compressed in fast mode.
    pub fn save(&self) -> (r: Vec<u8>)
        requires
            crate::model::model_wf(self@),
        ensures
            r@ == crate::compress::gzip_of(bytes_of_words(enc_model(self@))),
            bounded_model(self@),
    {
        let words = enc_model_words(self);
        let bytes = words_to_bytes(&words);
        crate::compress::compress(&bytes)
    }

    /// Restores a model from an artifact `save` produced. Anything that is
    /// not a well-formed artifact — bad gzip, bad framing, an encoding of a
    /// model with duplicate group keys — is rejected as `CorruptModel`.
    /// Together with `save` and `lemma_dec_enc_model` this is the round
    /// trip: a saved model loads back with identical state, hence identical
    /// search behaviour.
    pub fn load(bytes: &Vec<u8>) -> (r: Result<crate::model::Model, crate::Error>)
        ensures
            r matches Err(e) ==> e == crate::Error::CorruptModel,
            r matches Ok(model) ==> crate::model::model_wf(model@),
            forall|m: crate::model::ModelV|
                (bytes@ == crate::compress::gzip_of(bytes_of_words(enc_model(m)))
                    && bounded_model(m) && crate::model::model_wf(m)) ==> (r matches Ok(model)
                    && model@ == m),
    {
        let raw = match crate::compress::decompress(bytes) {
            None => {
                return Err(crate::Error::CorruptModel);
            },
            Some(v) => v,
        };
        let words = match words_from_bytes(&raw) {
            None => {
                proof {
                    assert forall|m: crate::model::ModelV|
                        bytes@ == crate::compress::gzip_of(bytes_of_words(enc_model(m)))
                            implies false by {
                        assert(raw@ == bytes_of_words(enc_model(m)));
                        lemma_bytes_of_words_len(enc_model(m));
                    }
                }
                return Err(crate::Error::CorruptModel);
            },
            Some(v) => v,
        };
        let decoded = match dec_model_x(&words, 0) {
            None => {
                proof {
                    assert forall|m: crate::model::ModelV|
                        (bytes@ == crate::compress::gzip_of(bytes_of_words(enc_model(m)))
                            && bounded_model(m)) implies false by {
                        assert(raw@ == bytes_of_words(enc_model(m)));
                        lemma_words_injective(words@, enc_model(m));
                        assert(enc_model(m).subrange(0, enc_model(m).len() as int) =~= enc_model(
                            m,
                        ));
                        lemma_dec_enc_model(m, words@, 0);
                    }
                }
                return Err(crate::Error::CorruptModel);
            },
            Some(v) => v,
        };
        let (model, _end) = decoded;
        proof {
            lemma_dec_model_wf(words@, 0);
        }
        if !keys_distinct(&model.indexes) {
            proof {
                assert forall|m: crate::model::ModelV|
                    (bytes@ == crate::compress::gzip_of(bytes_of_words(enc_model(m)))
                        && bounded_model(m) && crate::model::model_wf(m)) implies false by {
                    assert(raw@ == bytes_of_words(enc_model(m)));
                    lemma_words_injective(words@, enc_model(m));
                    assert(enc_model(m).subrange(0, enc_model(m).len() as int) =~= enc_model(m));
                    lemma_dec_enc_model(m, words@, 0);
                    assert(model@ == m);
                }
            }
            return Err(crate::Error::CorruptModel);
        }
        proof {
            assert forall|m: crate::model::ModelV|
                (bytes@ == crate::compress::gzip_of(bytes_of_words(enc_model(m)))
                    && bounded_model(m) && crate::model::model_wf(m)) implies model@ == m by {
                assert(raw@ == bytes_of_words(enc_model(m)));
                lemma_words_injective(words@, enc_model(m));
                assert(enc_model(m).subrange(0, enc_model(m).len() as int) =~= enc_model(m));
                lemma_dec_enc_model(m, words@, 0);
            }
        }
        Ok(model)
    }
}

} // verus!
