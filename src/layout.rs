use vstd::prelude::*;
use crate::config::{Config, lemma_kv_dim_bounds, SIZE_LIMIT};

verus! {

/// Where each tensor begins in the dense weight blob, counted in elements
/// from the first element after the header.
pub ghost struct DenseOffsets {
    pub rms_att: int,
    pub wq: int,
    pub wk: int,
    pub wv: int,
    pub wo: int,
    pub rms_ffn: int,
    pub w1: int,
    pub w2: int,
    pub w3: int,
    pub rms_final: int,
    /// Start of the two precomputed frequency tables, which the engine skips.
    pub freq: int,
    pub wcls_start: int,
    pub wcls_end: int,
    /// One past the last element of the blob.
    pub end: int,
}

/// The dense layout: token table, then per-kind stacks of all layers, the
/// final norm, the frequency tables, and the classifier unless it is shared.
pub open spec fn dense_offsets(c: Config) -> DenseOffsets {
    let d = c.sdim();
    let l = c.slayers();
    let h = c.shidden();
    let kv = c.skv_dim();
    let rms_att = c.svocab() * d;
    let wq = rms_att + l * d;
    let wk = wq + l * d * d;
    let wv = wk + l * d * kv;
    let wo = wv + l * d * kv;
    let rms_ffn = wo + l * d * d;
    let w1 = rms_ffn + l * d;
    let w2 = w1 + l * d * h;
    let w3 = w2 + l * h * d;
    let rms_final = w3 + l * d * h;
    let freq = rms_final + d;
    let skip = c.sseq() * c.shead_size() / 2 * 2;
    let wcls_start = if c.shared() { 0 } else { freq + skip };
    let wcls_end = if c.shared() { rms_att } else { freq + skip + c.svocab() * d };
    let end = if c.shared() { freq + skip } else { freq + skip + c.svocab() * d };
    DenseOffsets {
        rms_att, wq, wk, wv, wo, rms_ffn, w1, w2, w3, rms_final, freq, wcls_start, wcls_end, end,
    }
}

/// The dense layout of one configuration, in executable form.
#[derive(Clone, Copy, Debug)]
pub struct DenseLayout {
    pub rms_att: usize,
    pub wq: usize,
    pub wk: usize,
    pub wv: usize,
    pub wo: usize,
    pub rms_ffn: usize,
    pub w1: usize,
    pub w2: usize,
    pub w3: usize,
    pub rms_final: usize,
    pub freq: usize,
    pub wcls_start: usize,
    pub wcls_end: usize,
    pub end: usize,
}

impl View for DenseLayout {
    type V = DenseOffsets;

    open spec fn view(&self) -> DenseOffsets {
        DenseOffsets {
            rms_att: self.rms_att as int,
            wq: self.wq as int,
            wk: self.wk as int,
            wv: self.wv as int,
            wo: self.wo as int,
            rms_ffn: self.rms_ffn as int,
            w1: self.w1 as int,
            w2: self.w2 as int,
            w3: self.w3 as int,
            rms_final: self.rms_final as int,
            freq: self.freq as int,
            wcls_start: self.wcls_start as int,
            wcls_end: self.wcls_end as int,
            end: self.end as int,
        }
    }
}

/// `a * b * c` when it is at most `SIZE_LIMIT`.
pub(crate) fn bounded_product(a: usize, b: usize, c: usize) -> (r: Option<usize>)
    ensures
        a * b * c <= SIZE_LIMIT ==> r == Some((a * b * c) as usize),
        a * b * c > SIZE_LIMIT ==> r is None,
{
    if a == 0 || b == 0 || c == 0 {
        assert(a * b * c == 0) by (nonlinear_arith)
            requires a == 0 || b == 0 || c == 0;
        return Some(0);
    }
    let ab = match a.checked_mul(b) {
        Some(ab) => ab,
        None => {
            assert(a * b * c >= a * b) by (nonlinear_arith)
                requires c >= 1, a * b >= 0;
            return None;
        },
    };
    match ab.checked_mul(c) {
        Some(p) => {
            if p <= SIZE_LIMIT {
                Some(p)
            } else {
                None
            }
        },
        None => None,
    }
}

/// Every tensor of the dense layout fits inside the whole blob.
pub(crate) proof fn lemma_terms_bounded(c: Config)
    requires
        c.positive(),
        c.heads_ok(),
    ensures
        c.svocab() * c.sdim() * 1 <= c.dense_len(),
        c.slayers() * c.sdim() * 1 <= c.dense_len(),
        c.slayers() * c.sdim() * c.sdim() <= c.dense_len(),
        c.slayers() * c.sdim() * c.skv_dim() <= c.dense_len(),
        c.slayers() * c.sdim() * c.shidden() <= c.dense_len(),
        c.slayers() * c.shidden() * c.sdim() <= c.dense_len(),
        c.sseq() * c.shead_size() * 1 <= c.dense_len(),
        c.sdim() * 1 * 1 <= c.dense_len(),
{
    lemma_kv_dim_bounds(c);
    let d = c.sdim();
    let l = c.slayers();
    let h = c.shidden();
    let kv = c.skv_dim();
    let v = c.svocab();
    let s = c.sseq();
    let hs = c.shead_size();
    assert(v * d >= 0 && l * d >= 0 && l * d * d >= 0 && l * d * kv >= 0 && l * d * h >= 0
        && l * h * d >= 0 && s * hs >= 0) by (nonlinear_arith)
        requires v >= 0, d >= 0, l >= 0, kv >= 0, h >= 0, s >= 0, hs >= 0;
    assert(s * hs / 2 * 2 >= s * hs - 1) by {
        vstd::arithmetic::div_mod::lemma_fundamental_div_mod(s * hs, 2);
    }
    assert((s * hs) % 2 == 0) by {
        vstd::arithmetic::div_mod::lemma_fundamental_div_mod(hs, 2);
        assert(s * hs == s * (2 * (hs / 2))) ;
        assert(s * (2 * (hs / 2)) == 2 * (s * (hs / 2))) by (nonlinear_arith);
        vstd::arithmetic::div_mod::lemma_mod_multiples_basic(s * (hs / 2), 2);
        assert(2 * (s * (hs / 2)) == (s * (hs / 2)) * 2) by (nonlinear_arith);
    }
    assert(s * hs / 2 * 2 == s * hs) by {
        vstd::arithmetic::div_mod::lemma_fundamental_div_mod(s * hs, 2);
    }
}

impl DenseLayout {
    /// The layout of `c`, or `None` when the blob would exceed `SIZE_LIMIT`
    /// elements.
    pub fn new(c: &Config) -> (r: Option<DenseLayout>)
        requires
            c.positive(),
            c.heads_ok(),
        ensures
            c.dense_len() <= SIZE_LIMIT <==> r is Some,
            r matches Some(l) ==> l@ == dense_offsets(*c),
    {
        proof {
            lemma_kv_dim_bounds(*c);
        }
        let d = c.dim();
        let l = c.n_layers();
        let h = c.hidden_dim();
        let kv = c.kv_dim();
        let v = c.vocab_size();
        proof {
            lemma_terms_bounded(*c);
        }
        // each tensor is bounded by the blob, so a product over the limit
        // means the blob is over it as well
        let te = match bounded_product(v, d, 1) { Some(x) => x, None => return None };
        let na = match bounded_product(l, d, 1) { Some(x) => x, None => return None };
        let sq = match bounded_product(l, d, d) { Some(x) => x, None => return None };
        let kvs = match bounded_product(l, d, kv) { Some(x) => x, None => return None };
        let ff = match bounded_product(l, d, h) { Some(x) => x, None => return None };
        let ff2 = match bounded_product(l, h, d) { Some(x) => x, None => return None };
        let seq = c.seq_len();
        let hs = d / c.n_heads();
        let fr = match bounded_product(seq, hs, 1) { Some(x) => x, None => return None };
        let skip = fr / 2 * 2;
        let rms_att = te;
        let wq = rms_att + na;
        let wk = wq + sq;
        let wv = wk + kvs;
        let wo = wv + kvs;
        let rms_ffn = wo + sq;
        let w1 = rms_ffn + na;
        let w2 = w1 + ff;
        let w3 = w2 + ff2;
        let rms_final = w3 + ff;
        let dd = match bounded_product(d, 1, 1) { Some(x) => x, None => return None };
        let freq = rms_final + dd;
        let (wcls_start, wcls_end, end) = if c.shared_weight() {
            (0, rms_att, freq + skip)
        } else {
            (freq + skip, freq + skip + te, freq + skip + te)
        };
        if end > SIZE_LIMIT {
            return None;
        }
        Some(DenseLayout {
            rms_att, wq, wk, wv, wo, rms_ffn, w1, w2, w3, rms_final, freq, wcls_start, wcls_end, end,
        })
    }
}

} // verus!
