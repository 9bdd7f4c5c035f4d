use vstd::prelude::*;
use crate::config::{Config, lemma_kv_dim_bounds};
use crate::kernel::Real;

verus! {

/// Scratch buffers for one call over `tok_len` tokens. They carry nothing
/// from one call to the next.
pub struct RunState<T> {
    /// Residual stream: `tok_len x dim`.
    pub x0: Vec<T>,
    /// Normalized copy of the residual stream, reused for the attention
    /// output: `tok_len x dim`.
    pub x1: Vec<T>,
    /// Queries: `tok_len x dim`.
    pub q: Vec<T>,
    /// Feed-forward gate, then up projection: `2 x tok_len x hidden_dim`.
    pub hidden: Vec<T>,
    /// Attention scores: `n_heads x tok_len x seq_len`.
    pub attention: Vec<T>,
}

impl<T: Real> RunState<T> {
    pub open spec fn sized(&self, tok_len: int, c: Config) -> bool {
        &&& self.x0@.len() == tok_len * c.sdim()
        &&& self.x1@.len() == tok_len * c.sdim()
        &&& self.q@.len() == tok_len * c.sdim()
        &&& self.hidden@.len() == 2 * (tok_len * c.shidden())
        &&& self.attention@.len() == c.sheads() * (tok_len * c.sseq())
    }

    pub fn new(tok_len: usize, config: &Config) -> (r: Self)
        requires
            config.wf(),
            tok_len <= config.sseq(),
        ensures
            r.sized(tok_len as int, *config),
    {
        proof {
            lemma_run_state_fits(tok_len as int, *config);
        }
        let d = config.dim();
        let n_heads = config.n_heads();
        let seq = config.seq_len();
        let hidden = config.hidden_dim();
        RunState {
            x0: vec![T::zero(); tok_len * d],
            x1: vec![T::zero(); tok_len * d],
            q: vec![T::zero(); tok_len * d],
            hidden: vec![T::zero(); 2 * (tok_len * hidden)],
            attention: vec![T::zero(); n_heads * (tok_len * seq)],
        }
    }
}

proof fn lemma_run_state_fits(n: int, c: Config)
    requires
        c.wf(),
        0 <= n <= c.sseq(),
    ensures
        n * c.sdim() <= c.sseq() * c.sdim(),
        2 * (n * c.shidden()) <= c.sseq() * c.shidden() * 2,
        c.sheads() * (n * c.sseq()) <= c.sheads() * c.sseq() * c.sseq(),
        n * c.sseq() <= c.sheads() * (n * c.sseq()),
        n * c.shidden() <= 2 * (n * c.shidden()),
{
    let s = c.sseq();
    assert(n * c.sdim() <= s * c.sdim()) by (nonlinear_arith)
        requires n <= s, c.sdim() > 0;
    assert(2 * (n * c.shidden()) <= s * c.shidden() * 2) by (nonlinear_arith)
        requires n <= s, c.shidden() > 0;
    assert(c.sheads() * (n * s) <= c.sheads() * s * s) by (nonlinear_arith)
        requires n <= s, c.sheads() > 0, s > 0;
    assert(n * s <= c.sheads() * (n * s)) by (nonlinear_arith)
        requires n >= 0, s > 0, c.sheads() >= 1;
    assert(n * c.shidden() >= 0) by (nonlinear_arith)
        requires n >= 0, c.shidden() > 0;
}

/// The key and value caches of one layer: `seq_len x kv_dim` each. Row `p`
/// holds the key (value) of the token at absolute position `p`.
pub struct Layer<T> {
    pub k_cache: Vec<T>,
    pub v_cache: Vec<T>,
}

impl<T: Real> Layer<T> {
    pub open spec fn sized(&self, c: Config) -> bool {
        &&& self.k_cache@.len() == c.sseq() * c.skv_dim()
        &&& self.v_cache@.len() == c.sseq() * c.skv_dim()
    }

    /// Every entry of both caches is zero.
    pub open spec fn zeroed(&self) -> bool {
        &&& forall|i: int| 0 <= i < self.k_cache@.len() ==> #[trigger] self.k_cache@[i] == T::zero_s()
        &&& forall|i: int| 0 <= i < self.v_cache@.len() ==> #[trigger] self.v_cache@[i] == T::zero_s()
    }

    /// Zeroed caches, sized for `seq_len` positions.
    pub fn new(config: &Config) -> (r: Self)
        requires
            config.wf(),
        ensures
            r.sized(*config),
            r.zeroed(),
    {
        proof {
            lemma_cache_fits(*config);
        }
        let len = config.seq_len() * config.kv_dim();
        Layer { k_cache: zeros(len), v_cache: zeros(len) }
    }
}

/// `len` zeros.
pub fn zeros<T: Real>(len: usize) -> (r: Vec<T>)
    ensures
        r@.len() == len,
        forall|i: int| 0 <= i < len ==> #[trigger] r@[i] == T::zero_s(),
{
    let mut v: Vec<T> = Vec::new();
    let z = T::zero();
    let mut i: usize = 0;
    while i < len
        invariant
            i <= len,
            v@.len() == i,
            z == T::zero_s(),
            forall|k: int| 0 <= k < i ==> #[trigger] v@[k] == T::zero_s(),
        decreases len - i,
    {
        v.push(z);
        i = i + 1;
    }
    v
}

pub proof fn lemma_cache_fits(c: Config)
    requires
        c.wf(),
    ensures
        0 < c.sseq() * c.skv_dim() <= c.slayers() * c.sseq() * c.skv_dim(),
{
    lemma_kv_dim_bounds(c);
    assert(0 < c.sseq() * c.skv_dim() <= c.slayers() * c.sseq() * c.skv_dim())
        by (nonlinear_arith)
        requires c.sseq() > 0, c.skv_dim() > 0, c.slayers() >= 1;
}

/// Rotary position embedding: a table of `(cos, sin)` pairs, one row of
/// `dim` entries per position.
pub struct RotaryEmbedder<T> {
    pub dim: usize,
    pub rotary: Vec<T>,
}

/// Entry `idx` of the rotary table of rows of width `dim`: the pair of
/// coordinates `(q, q + 1)` (`q` even) of position `p` holds the cosine and
/// the sine of `rotation(p, q % head_size, head_size)`.
pub open spec fn table_entry<T: Real>(dim: int, head_size: int, idx: int) -> T {
    let p = idx / dim;
    let q = idx % dim;
    let pair = T::rotation_s(p as usize, ((q - q % 2) % head_size) as usize, head_size as usize);
    if q % 2 == 0 { pair.0 } else { pair.1 }
}

/// Element `idx` of `x` after rotating the pairs that start at `start` by
/// the table row at `base`: `(x0 * cos - x1 * sin, x1 * cos + x0 * sin)`.
pub open spec fn rotated<T: Real>(x: Seq<T>, table: Seq<T>, base: int, start: int, idx: int) -> T {
    let l = idx - start;
    let p = l - l % 2;
    let cos = table[base + p];
    let sin = table[base + p + 1];
    if l % 2 == 0 {
        x[idx].mul_s(cos).sub_s(x[idx + 1].mul_s(sin))
    } else {
        x[idx].mul_s(cos).add_s(x[idx - 1].mul_s(sin))
    }
}

impl<T: Real> RotaryEmbedder<T> {
    pub open spec fn sized(&self, c: Config) -> bool {
        &&& self.dim == c.sdim()
        &&& self.rotary@.len() == c.sseq() * c.sdim()
        &&& forall|idx: int|
            0 <= idx < self.rotary@.len() ==> #[trigger] self.rotary@[idx] == table_entry::<T>(
                c.sdim(),
                c.shead_size(),
                idx,
            )
    }

    /// Builds the table: the pair at coordinates `(i, i + 1)` of position
    /// `pos` holds the cosine and sine of `pos * 10000^(-(i % head_size) / head_size)`.
    pub fn new(config: &Config) -> (r: Self)
        requires
            config.wf(),
        ensures
            r.sized(*config),
    {
        proof {
            lemma_kv_dim_bounds(*config);
        }
        let dim = config.dim();
        let seq = config.seq_len();
        let head_size = dim / config.n_heads();
        let ghost d = dim as int;
        assert(d % 2 == 0) by {
            let hs = config.shead_size();
            assert(d == hs * config.sheads());
            assert(hs == 2 * (hs / 2));
            assert(d == 2 * ((hs / 2) * config.sheads())) by (nonlinear_arith)
                requires d == hs * config.sheads(), hs == 2 * (hs / 2);
        }
        let mut rotary: Vec<T> = Vec::new();
        let mut pos: usize = 0;
        while pos < seq
            invariant
                pos <= seq,
                seq == config.sseq(),
                dim == config.sdim(),
                dim == d,
                d > 0,
                head_size == config.shead_size(),
                head_size > 0,
                d % 2 == 0,
                seq * d <= usize::MAX,
                rotary@.len() == pos * d,
                forall|idx: int|
                    0 <= idx < rotary@.len() ==> #[trigger] rotary@[idx] == table_entry::<T>(d, head_size as int, idx),
            decreases seq - pos,
        {
            let mut i: usize = 0;
            while i < dim
                invariant
                    pos < seq,
                    i <= dim,
                    i % 2 == 0,
                    d % 2 == 0,
                    d > 0,
                    dim == d,
                    head_size > 0,
                    rotary@.len() == pos * d + i,
                    forall|idx: int|
                        0 <= idx < rotary@.len() ==> #[trigger] rotary@[idx] == table_entry::<T>(d, head_size as int, idx),
                decreases dim - i,
            {
                let (cos, sin) = T::rotation(pos, i % head_size, head_size);
                proof {
                    vstd::arithmetic::div_mod::lemma_fundamental_div_mod_converse(pos * d + i, d, pos as int, i as int);
                    vstd::arithmetic::div_mod::lemma_fundamental_div_mod_converse(
                        pos * d + i + 1,
                        d,
                        pos as int,
                        i + 1,
                    );
                    assert((i + 1) % 2 == 1);
                }
                rotary.push(cos);
                rotary.push(sin);
                i = i + 2;
            }
            proof {
                assert(pos * d + d == (pos + 1) * d) by (nonlinear_arith);
            }
            pos = pos + 1;
        }
        RotaryEmbedder { dim, rotary }
    }

    /// Rotates each adjacent pair `(x0, x1)` of `data` by the angle of its
    /// coordinates at position `pos`:
    /// `(x0 * cos - x1 * sin, x1 * cos + x0 * sin)`.
    pub fn run(&self, pos: usize, data: &mut [T])
        requires
            (pos + 1) * self.dim <= self.rotary@.len(),
            old(data)@.len() <= self.dim,
        ensures
            final(data)@.len() == old(data)@.len(),
            forall|idx: int|
                0 <= idx < old(data)@.len() / 2 * 2 ==> #[trigger] final(data)@[idx] == rotated(
                    old(data)@,
                    self.rotary@,
                    pos * self.dim,
                    0,
                    idx,
                ),
            forall|idx: int|
                old(data)@.len() / 2 * 2 <= idx < old(data)@.len() ==> #[trigger] final(data)@[idx]
                    == old(data)@[idx],
    {
        let ghost d0 = data@;
        let _ = self.rotary.len();
        proof {
            assert(pos * self.dim + self.dim == (pos + 1) * self.dim) by (nonlinear_arith);
        }
        let base = pos * self.dim;
        let half = data.len() / 2;
        let mut i: usize = 0;
        while i < half
            invariant
                i <= half,
                half == d0.len() / 2,
                data@.len() == d0.len(),
                d0.len() <= self.dim,
                base == pos * self.dim,
                base + self.dim <= self.rotary@.len(),
                self.rotary@.len() <= usize::MAX,
                forall|idx: int|
                    0 <= idx < 2 * i ==> #[trigger] data@[idx] == rotated(d0, self.rotary@, base as int, 0, idx),
                forall|idx: int| 2 * i <= idx < d0.len() ==> #[trigger] data@[idx] == d0[idx],
            decreases half - i,
        {
            let x0 = data[2 * i];
            let x1 = data[2 * i + 1];
            let cos = self.rotary[base + 2 * i];
            let sin = self.rotary[base + 2 * i + 1];
            proof {
                assert((2 * i) % 2 == 0);
                assert((2 * i + 1) % 2 == 1);
            }
            data[2 * i] = x0.times(cos).minus(x1.times(sin));
            data[2 * i + 1] = x1.times(cos).plus(x0.times(sin));
            i = i + 1;
        }
    }

    /// `run` on the `len` elements of `data` from `start` on. Nothing else
    /// in `data` changes.
    pub fn run_at(&self, pos: usize, data: &mut Vec<T>, start: usize, len: usize)
        requires
            (pos + 1) * self.dim <= self.rotary@.len(),
            len <= self.dim,
            start + len <= old(data)@.len(),
        ensures
            final(data)@.len() == old(data)@.len(),
            forall|idx: int|
                0 <= idx < old(data)@.len() && (idx < start || idx >= start + len / 2 * 2)
                    ==> #[trigger] final(data)@[idx] == old(data)@[idx],
            forall|idx: int|
                start <= idx < start + len / 2 * 2 ==> #[trigger] final(data)@[idx] == rotated(
                    old(data)@,
                    self.rotary@,
                    pos * self.dim,
                    start as int,
                    idx,
                ),
    {
        let ghost d0 = data@;
        let _ = self.rotary.len();
        let _ = data.len();
        proof {
            assert(pos * self.dim + self.dim == (pos + 1) * self.dim) by (nonlinear_arith);
        }
        let base = pos * self.dim;
        let half = len / 2;
        let mut i: usize = 0;
        while i < half
            invariant
                i <= half,
                half == len / 2,
                len <= self.dim,
                start + len <= data@.len(),
                data@.len() == d0.len(),
                d0.len() <= usize::MAX,
                base == pos * self.dim,
                base + self.dim <= self.rotary@.len(),
                self.rotary@.len() <= usize::MAX,
                forall|idx: int|
                    0 <= idx < d0.len() && (idx < start || idx >= start + 2 * i) ==> #[trigger] data@[idx]
                        == d0[idx],
                forall|idx: int|
                    start <= idx < start + 2 * i ==> #[trigger] data@[idx] == rotated(
                        d0,
                        self.rotary@,
                        base as int,
                        start as int,
                        idx,
                    ),
            decreases half - i,
        {
            let a = start + 2 * i;
            let x0 = data[a];
            let x1 = data[a + 1];
            let cos = self.rotary[base + 2 * i];
            let sin = self.rotary[base + 2 * i + 1];
            proof {
                assert((2 * i) % 2 == 0);
                assert((2 * i + 1) % 2 == 1);
            }
            data.set(a, x0.times(cos).minus(x1.times(sin)));
            data.set(a + 1, x1.times(cos).plus(x0.times(sin)));
            i = i + 1;
        }
    }
}

} // verus!
