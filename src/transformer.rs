use vstd::prelude::*;
use crate::config::{Config, lemma_kv_dim_bounds, SIZE_LIMIT};
use crate::kernel::{sum_sq, exp_sum, prefix_max, softmax_at, lemma_cell_coords, lemma_separated_injective, causal_softmax, dot, gemm, lemma_row_index, normed, normed_inplace, rmsnorm, rmsnorm_inplace, swiglu, Real, Strided};
use crate::state::rotated;
use crate::state::{lemma_cache_fits, Layer, RotaryEmbedder, RunState};
use crate::weights::Weights;

verus! {

/// Why a call into the engine was refused. A refused call changes nothing.
#[derive(Clone, Copy, Debug, PartialEq, Eq, Structural)]
pub enum EngineError {
    /// The batch would write key/value rows at or beyond `seq_len`.
    Capacity,
    /// A token id is not below the vocabulary size.
    UnknownToken,
}

/// `new` equals `old` outside rows `[lo, hi)` of width `width`.
pub open spec fn rows_kept<T>(old: Seq<T>, new: Seq<T>, width: int, lo: int, hi: int) -> bool {
    &&& new.len() == old.len()
    &&& forall|idx: int|
        0 <= idx < old.len() && (idx < lo * width || idx >= hi * width) ==> #[trigger] new[idx]
            == old[idx]
}

proof fn lemma_rows_kept_trans<T>(a: Seq<T>, b: Seq<T>, c: Seq<T>, width: int, lo: int, hi: int)
    requires
        rows_kept(a, b, width, lo, hi),
        rows_kept(b, c, width, lo, hi),
    ensures
        rows_kept(a, c, width, lo, hi),
{
    assert forall|idx: int|
        0 <= idx < a.len() && (idx < lo * width || idx >= hi * width) implies #[trigger] c[idx]
            == a[idx] by {
        assert(c[idx] == b[idx]);
    }
}

/// A view with unit row stride stepping `col_stride` per column: `cols`
/// blocks of width `col_stride` starting at `base`, each read from offset
/// `v.offset - base` for `rows` elements.
proof fn lemma_cols_fit(v: Strided, base: int, rows: int, cols: int, len: int)
    requires
        v.row_stride == 1,
        0 <= base <= v.offset,
        rows >= 0,
        cols >= 0,
        v.offset - base + rows <= v.col_stride,
        base + cols * v.col_stride <= len,
    ensures
        v.fits(rows, cols, len),
{
    if rows > 0 && cols > 0 {
        let w = v.col_stride as int;
        assert(v.last(rows, cols) == v.offset + (rows - 1) + (cols - 1) * w) by (nonlinear_arith)
            requires v.row_stride == 1, w == v.col_stride;
        assert((cols - 1) * w + w == cols * w) by (nonlinear_arith);
    }
}

/// The transpose of `lemma_cols_fit`: unit column stride, `row_stride` per row.
proof fn lemma_rows_fit(v: Strided, base: int, rows: int, cols: int, len: int)
    requires
        v.col_stride == 1,
        0 <= base <= v.offset,
        rows >= 0,
        cols >= 0,
        v.offset - base + cols <= v.row_stride,
        base + rows * v.row_stride <= len,
    ensures
        v.fits(rows, cols, len),
{
    if rows > 0 && cols > 0 {
        let w = v.row_stride as int;
        assert(v.last(rows, cols) == v.offset + (rows - 1) * w + (cols - 1)) by (nonlinear_arith)
            requires v.col_stride == 1, w == v.row_stride;
        assert((rows - 1) * w + w == rows * w) by (nonlinear_arith);
    }
}

/// The sizes of one batch of `n <= seq_len` tokens fit in `usize`.
proof fn lemma_batch_bounds(c: Config, n: int)
    requires
        c.wf(),
        0 <= n <= c.sseq(),
    ensures
        n * c.sdim() <= SIZE_LIMIT,
        n * c.shidden() * 2 <= SIZE_LIMIT,
        n * c.sseq() <= SIZE_LIMIT,
        c.sheads() * (n * c.sseq()) <= SIZE_LIMIT,
        c.sseq() * c.skv_dim() <= SIZE_LIMIT,
        c.sseq() * c.sdim() <= SIZE_LIMIT,
{
    lemma_kv_dim_bounds(c);
    lemma_cache_fits(c);
    let s = c.sseq();
    assert(n * c.sdim() <= s * c.sdim()) by (nonlinear_arith)
        requires n <= s, c.sdim() > 0;
    assert(n * c.shidden() * 2 <= s * c.shidden() * 2) by (nonlinear_arith)
        requires n <= s, c.shidden() > 0;
    assert(c.sheads() * (n * s) <= c.sheads() * s * s) by (nonlinear_arith)
        requires n <= s, c.sheads() > 0, s > 0;
    assert(n * s <= c.sheads() * (n * s)) by (nonlinear_arith)
        requires n >= 0, s > 0, c.sheads() >= 1;
    assert(s * c.sdim() >= s * c.skv_dim()) by (nonlinear_arith)
        requires c.skv_dim() <= c.sdim(), s > 0;
}

/// `a * b` in `[0, c * b]` when `0 <= a <= c` and `b >= 0`.
proof fn lemma_mul_le(a: int, b: int, c: int)
    requires
        0 <= a <= c,
        b >= 0,
    ensures
        0 <= a * b <= c * b,
        0 <= b * a <= b * c,
{
    assert(0 <= a * b <= c * b) by (nonlinear_arith)
        requires 0 <= a <= c, b >= 0;
    assert(b * a == a * b && b * c == c * b) by (nonlinear_arith);
}

/// A decoder-only transformer over weights in the dense layout, with one
/// key/value cache per layer.
pub struct Transformer<T> {
    pub weights: Weights<T>,
    pub layers: Vec<Layer<T>>,
    pub logits: Vec<T>,
    pub embedder: RotaryEmbedder<T>,
}

impl<T: Real> Transformer<T> {
    pub open spec fn config(&self) -> Config {
        self.weights.config
    }

    pub open spec fn wf(&self) -> bool {
        &&& self.weights.wf()
        &&& self.layers@.len() == self.config().slayers()
        &&& forall|l: int| 0 <= l < self.layers@.len() ==> #[trigger] self.layers@[l].sized(self.config())
        &&& self.logits@.len() == self.config().svocab()
        &&& self.embedder.sized(self.config())
    }

    /// Every layer's caches are unchanged outside the rows of positions
    /// `[lo, hi)`.
    pub open spec fn caches_kept(&self, next: &Self, lo: int, hi: int) -> bool {
        &&& next.layers@.len() == self.layers@.len()
        &&& forall|l: int|
            0 <= l < self.layers@.len() ==> {
                &&& rows_kept(
                    #[trigger] self.layers@[l].k_cache@,
                    next.layers@[l].k_cache@,
                    self.config().skv_dim(),
                    lo,
                    hi,
                )
                &&& rows_kept(
                    self.layers@[l].v_cache@,
                    next.layers@[l].v_cache@,
                    self.config().skv_dim(),
                    lo,
                    hi,
                )
            }
    }

    /// The key and value rows that a batch of `tokens` at `pos` leaves in
    /// the first layer of `next`: the `wv` projection, and the rotated `wk`
    /// projection, of the normalized token embeddings.
    pub open spec fn first_layer_rows(&self, next: &Self, tokens: Seq<u32>, pos: int) -> bool {
        let c = self.config();
        let w = &self.weights;
        let d = c.sdim();
        let kv = c.skv_dim();
        let n = tokens.len() as int;
        let xn = normalized(embedded(w, tokens), w.stacked_view(w.layout.rms_att as int, d, 0));
        let wk = w.stacked_view(w.layout.wk as int, kv * d, 0);
        let wv = w.stacked_view(w.layout.wv as int, kv * d, 0);
        &&& next.layers@[0].v_cache@ == projected_rows(self.layers@[0].v_cache@, wv, xn, d, kv, pos, n)
        &&& next.layers@[0].k_cache@ == rotated_rows(
            projected_rows(self.layers@[0].k_cache@, wk, xn, d, kv, pos, n),
            self.embedder.rotary@,
            d,
            kv,
            pos,
            n,
        )
    }

    pub open spec fn key_caches(&self) -> Seq<Seq<T>> {
        Seq::new(self.layers@.len(), |l: int| self.layers@[l].k_cache@)
    }

    pub open spec fn value_caches(&self) -> Seq<Seq<T>> {
        Seq::new(self.layers@.len(), |l: int| self.layers@[l].v_cache@)
    }

    /// The residual stream entering layer `l` for a batch of `tokens` at `pos`.
    pub open spec fn stream(&self, tokens: Seq<u32>, pos: int, l: int) -> Seq<T> {
        stack_out(
            &self.weights,
            self.embedder.rotary@,
            self.key_caches(),
            self.value_caches(),
            embedded(&self.weights, tokens),
            pos,
            tokens.len() as int,
            l,
        )
    }

    /// The residual stream a batch of `tokens` at `pos` leaves after every layer.
    pub open spec fn output(&self, tokens: Seq<u32>, pos: int) -> Seq<T> {
        self.stream(tokens, pos, self.layers@.len() as int)
    }

    /// Layer `l`'s caches in `next` are what the batch writes into `self`'s.
    pub open spec fn layer_caches(&self, next: &Self, tokens: Seq<u32>, pos: int, l: int) -> bool {
        let x = self.stream(tokens, pos, l);
        let n = tokens.len() as int;
        &&& next.layers@[l].k_cache@ == layer_keys(&self.weights, self.embedder.rotary@, l, x, self.layers@[l].k_cache@, pos, n)
        &&& next.layers@[l].v_cache@ == layer_values(&self.weights, l, x, self.layers@[l].v_cache@, pos, n)
    }

    /// A model with zeroed caches.
    pub fn new(weights: Weights<T>) -> (r: Self)
        requires
            weights.wf(),
        ensures
            r.wf(),
            r.weights == weights,
            forall|l: int| 0 <= l < r.layers@.len() ==> #[trigger] r.layers@[l].zeroed(),
    {
        let config = weights.config;
        let n_layers = config.n_layers();
        let mut layers: Vec<Layer<T>> = Vec::new();
        let mut l: usize = 0;
        while l < n_layers
            invariant
                config.wf(),
                l <= n_layers,
                n_layers == config.slayers(),
                layers@.len() == l,
                forall|j: int| 0 <= j < l ==> #[trigger] layers@[j].sized(config),
                forall|j: int| 0 <= j < l ==> #[trigger] layers@[j].zeroed(),
            decreases n_layers - l,
        {
            layers.push(Layer::new(&config));
            l = l + 1;
        }
        let logits = vec![T::zero(); config.vocab_size()];
        let embedder = RotaryEmbedder::new(&config);
        Transformer { weights, layers, logits, embedder }
    }

    pub fn vocab_size(&self) -> (r: usize)
        ensures
            r == self.config().svocab(),
    {
        self.weights.config.vocab_size()
    }

    /// Runs `tokens`, at absolute positions `pos, pos + 1, ...`, through
    /// every layer and returns the residual stream: `tokens.len() x dim`.
    ///
    /// The key and value rows of those positions are written in every
    /// layer's cache; all other rows stay as they were. A batch that would
    /// run past `seq_len`, or that holds a token outside the vocabulary, is
    /// refused before anything changes.
    pub fn update(&mut self, tokens: &[u32], pos: u32) -> (r: Result<Vec<T>, EngineError>)
        requires
            old(self).wf(),
        ensures
            pos + tokens@.len() > old(self).config().sseq() ==> r == Err::<Vec<T>, EngineError>(
                EngineError::Capacity,
            ),
            pos + tokens@.len() <= old(self).config().sseq() && (exists|i: int|
                0 <= i < tokens@.len() && #[trigger] tokens@[i] >= old(self).config().svocab())
                ==> r == Err::<Vec<T>, EngineError>(EngineError::UnknownToken),
            r is Err ==> *final(self) == *old(self),
            r is Ok <==> (pos + tokens@.len() <= old(self).config().sseq() && forall|i: int|
                0 <= i < tokens@.len() ==> #[trigger] tokens@[i] < old(self).config().svocab()),
            r matches Ok(x) ==> {
                &&& final(self).wf()
                &&& final(self).weights == old(self).weights
                &&& final(self).embedder == old(self).embedder
                &&& final(self).logits == old(self).logits
                &&& x@.len() == tokens@.len() * old(self).config().sdim()
                &&& old(self).caches_kept(final(self), pos as int, pos + tokens@.len())
                &&& old(self).first_layer_rows(final(self), tokens@, pos as int)
                &&& x@ == old(self).output(tokens@, pos as int)
                &&& forall|l: int| 0 <= l < old(self).layers@.len() ==> #[trigger] old(self).layer_caches(final(self), tokens@, pos as int, l)
            },
    {
        let c = self.weights.config;
        let tok_len = tokens.len();
        let p = pos as usize;
        let seq = c.seq_len();
        if tok_len > seq || p > seq - tok_len {
            return Err(EngineError::Capacity);
        }
        let vocab = c.vocab_size();
        let mut t: usize = 0;
        while t < tok_len
            invariant
                t <= tok_len,
                tok_len == tokens@.len(),
                p + tok_len <= seq,
                p == pos,
                seq == c.sseq(),
                c == self.weights.config,
                *self == *old(self),
                vocab == c.svocab(),
                forall|i: int| 0 <= i < t ==> #[trigger] tokens@[i] < vocab,
            decreases tok_len - t,
        {
            if tokens[t] as usize >= vocab {
                return Err(EngineError::UnknownToken);
            }
            t = t + 1;
        }
        let mut s = RunState::new(tok_len, &c);
        self.embed(tokens, &mut s);
        let n_layers = c.n_layers();
        let ghost start = *self;
        let mut l: usize = 0;
        while l < n_layers
            invariant
                c == self.weights.config,
                start.wf(),
                self.wf(),
                self.weights == start.weights,
                self.embedder == start.embedder,
                self.logits == start.logits,
                l <= n_layers,
                n_layers == c.slayers(),
                p + tok_len <= c.sseq(),
                p == pos,
                s.sized(tok_len as int, c),
                start.caches_kept(self, p as int, p + tok_len),
                l == 0 ==> s.x0@ == embedded(&start.weights, tokens@),
                l == 0 ==> self.layers@ == start.layers@,
                l > 0 ==> start.first_layer_rows(self, tokens@, p as int),
                tok_len == tokens@.len(),
                s.x0@ == start.stream(tokens@, p as int, l as int),
                forall|j: int| 0 <= j < l ==> #[trigger] start.layer_caches(self, tokens@, p as int, j),
                forall|j: int| l <= j < n_layers ==> #[trigger] self.layers@[j] == start.layers@[j],
            decreases n_layers - l,
        {
            let ghost before = self.layers@;
            let ghost x_before = s.x0@;
            let ghost self_before = *self;
            block(&self.weights, &self.embedder, l, &mut self.layers[l], &mut s, p, tok_len);
            proof {
                assert(start.key_caches()[l as int] == start.layers@[l as int].k_cache@);
                assert(start.value_caches()[l as int] == start.layers@[l as int].v_cache@);
                assert(s.x0@ == start.stream(tokens@, p as int, l + 1));
                assert forall|j: int| 0 <= j < l + 1 implies #[trigger] start.layer_caches(self, tokens@, p as int, j) by {
                    if j < l {
                        assert(start.layer_caches(&self_before, tokens@, p as int, j));
                        assert(self.layers@[j] == before[j]);
                    } else {
                        assert(before[l as int] == start.layers@[l as int]);
                        assert(x_before == start.stream(tokens@, p as int, l as int));
                        assert(self.layers@[j].k_cache@ == layer_keys(&start.weights, start.embedder.rotary@, j, x_before, start.layers@[j].k_cache@, p as int, tok_len as int));
                        assert(self.layers@[j].v_cache@ == layer_values(&start.weights, j, x_before, start.layers@[j].v_cache@, p as int, tok_len as int));
                    }
                }
                assert forall|j: int| l + 1 <= j < n_layers implies #[trigger] self.layers@[j] == start.layers@[j] by {
                    assert(self.layers@[j] == before[j]);
                }
                assert forall|j: int| 0 <= j < self.layers@.len() implies #[trigger] self.layers@[j].sized(c) by {
                    if j != l {
                        assert(self.layers@[j] == before[j]);
                    }
                }
                assert forall|j: int| 0 <= j < start.layers@.len() implies {
                    &&& rows_kept(
                        #[trigger] start.layers@[j].k_cache@,
                        self.layers@[j].k_cache@,
                        c.skv_dim(),
                        p as int,
                        p + tok_len,
                    )
                    &&& rows_kept(
                        start.layers@[j].v_cache@,
                        self.layers@[j].v_cache@,
                        c.skv_dim(),
                        p as int,
                        p + tok_len,
                    )
                } by {
                    if j != l {
                        assert(self.layers@[j] == before[j]);
                    } else {
                        lemma_rows_kept_trans(
                            start.layers@[j].k_cache@,
                            before[j].k_cache@,
                            self.layers@[j].k_cache@,
                            c.skv_dim(),
                            p as int,
                            p + tok_len,
                        );
                        lemma_rows_kept_trans(
                            start.layers@[j].v_cache@,
                            before[j].v_cache@,
                            self.layers@[j].v_cache@,
                            c.skv_dim(),
                            p as int,
                            p + tok_len,
                        );
                    }
                }
            }
            l = l + 1;
        }
        Ok(s.x0)
    }

    /// Copies the embedding row of each token into the residual stream.
    fn embed(&self, tokens: &[u32], s: &mut RunState<T>)
        requires
            self.wf(),
            tokens@.len() <= self.config().sseq(),
            forall|i: int| 0 <= i < tokens@.len() ==> #[trigger] tokens@[i] < self.config().svocab(),
            old(s).sized(tokens@.len() as int, self.config()),
        ensures
            final(s).sized(tokens@.len() as int, self.config()),
            final(s).x0@ == embedded(&self.weights, tokens@),
            final(s).x1@ == old(s).x1@,
            final(s).q@ == old(s).q@,
            final(s).hidden@ == old(s).hidden@,
            final(s).attention@ == old(s).attention@,
    {
        let c = self.weights.config;
        let d = c.dim();
        let n = tokens.len();
        let mut i: usize = 0;
        while i < n
            invariant
                c == self.weights.config,
                self.wf(),
                n == tokens@.len(),
                n <= c.sseq(),
                d == c.sdim(),
                i <= n,
                forall|k: int| 0 <= k < n ==> #[trigger] tokens@[k] < c.svocab(),
                s.sized(n as int, c),
                s.x1@ == old(s).x1@ && s.q@ == old(s).q@ && s.hidden@ == old(s).hidden@
                    && s.attention@ == old(s).attention@,
                forall|idx: int| 0 <= idx < i * d ==> #[trigger] s.x0@[idx] == embedded(&self.weights, tokens@)[idx],
            decreases n - i,
        {
            let row = self.weights.token_embedding_table(tokens[i]);
            proof {
                crate::weights::lemma_stack(i as int, n as int, d as int);
                lemma_batch_bounds(c, n as int);
                let t = tokens@[i as int] as int;
                crate::weights::lemma_stack(t, c.svocab(), d as int);
                crate::layout::lemma_terms_bounded(c);
                assert(c.svocab() * c.sdim() * 1 == c.svocab() * c.sdim());
                assert forall|k: int| 0 <= k < d implies #[trigger] row@[k] == self.weights.data@[t * c.sdim() + k] by {}
            }
            let base = i * d;
            let mut j: usize = 0;
            while j < d
                invariant
                    j <= d,
                    row@.len() == d,
                    base + d <= n * d,
                    n * d <= SIZE_LIMIT,
                    s.sized(n as int, c),
                    d == c.sdim(),
                    d > 0,
                    base == i * d,
                    i < n,
                    n == tokens@.len(),
                    self.wf(),
                    c == self.weights.config,
                    forall|k: int| 0 <= k < d ==> #[trigger] row@[k] == self.weights.data@[tokens@[i as int] as int * c.sdim() + k],
                    row@.len() == d,
                    s.x1@ == old(s).x1@ && s.q@ == old(s).q@ && s.hidden@ == old(s).hidden@
                        && s.attention@ == old(s).attention@,
                    forall|idx: int| 0 <= idx < base + j ==> #[trigger] s.x0@[idx] == embedded(&self.weights, tokens@)[idx],
                decreases d - j,
            {
                proof {
                    lemma_row_index(i as int, d as int, j as int);
                    vstd::arithmetic::div_mod::lemma_fundamental_div_mod_converse(base + j, d as int, i as int, j as int);
                }
                s.x0.set(base + j, row[j]);
                proof {
                    let t = tokens@[i as int] as int;
                    assert((base + j) / (d as int) == i && (base + j) % (d as int) == j);
                    assert(embedded(&self.weights, tokens@)[base + j] == self.weights.data@[t * c.sdim() + j]);
                }
                j = j + 1;
            }
            proof {
                assert(base + d == (i + 1) * d) by (nonlinear_arith)
                    requires base == i * d;
            }
            i = i + 1;
        }
    }

    /// Runs `token` at position `pos` and returns the logits over the
    /// vocabulary.
    pub fn forward(&mut self, token: u32, pos: u32) -> (r: Result<&[T], EngineError>)
        requires
            old(self).wf(),
        ensures
            pos + 1 > old(self).config().sseq() ==> r == Err::<&[T], EngineError>(
                EngineError::Capacity,
            ),
            pos + 1 <= old(self).config().sseq() && token >= old(self).config().svocab()
                ==> r == Err::<&[T], EngineError>(EngineError::UnknownToken),
            r is Err ==> *final(self) == *old(self),
            r is Ok <==> (pos + 1 <= old(self).config().sseq() && token < old(self).config().svocab()),
            r matches Ok(logits) ==> {
                &&& final(self).wf()
                &&& final(self).weights == old(self).weights
                &&& logits@.len() == old(self).config().svocab()
                &&& logits@ == final(self).logits@
                &&& old(self).caches_kept(final(self), pos as int, pos + 1)
                &&& old(self).first_layer_rows(final(self), seq![token], pos as int)
                &&& logits@ == classify(&old(self).weights, old(self).output(seq![token], pos as int))
                &&& forall|l: int| 0 <= l < old(self).layers@.len() ==> #[trigger] old(self).layer_caches(final(self), seq![token], pos as int, l)
            },
    {
        let mut tokens: Vec<u32> = Vec::new();
        tokens.push(token);
        assert(tokens@.len() == 1 && tokens@[0] == token);
        assert(tokens@ == seq![token]);
        let mut x = match self.update(tokens.as_slice(), pos) {
            Ok(x) => x,
            Err(e) => {
                return Err(e);
            },
        };
        let c = self.weights.config;
        let d = c.dim();
        let vocab = c.vocab_size();
        proof {
            lemma_kv_dim_bounds(c);
            assert(1 * c.sdim() == c.sdim());
        }
        let ghost x_res = x@;
        let ghost after_update = *self;
        rmsnorm_inplace(&mut x, self.weights.rms_final_weight(), 1);
        let wcls = self.weights.wcls();
        let va = Strided { offset: 0, row_stride: d, col_stride: 1 };
        let vb = Strided { offset: 0, row_stride: 1, col_stride: d };
        let vc = Strided { offset: 0, row_stride: 1, col_stride: vocab };
        proof {
            assert(vocab * d == c.svocab() * c.sdim());
            lemma_rows_fit(va, 0, vocab as int, d as int, wcls@.len() as int);
            lemma_cols_fit(vb, 0, d as int, 1, x@.len() as int);
            lemma_cols_fit(vc, 0, vocab as int, 1, self.logits@.len() as int);
        }
        proof {
            lemma_separated_injective(vc, (vocab) as int, (1) as int);
        }
        gemm(vocab, d, 1, T::one(), wcls, va, x.as_slice(), vb, None, &mut self.logits, vc);
        assert(old(self).caches_kept(self, pos as int, pos + 1));
        proof {
            assert(x@ =~= Seq::new(c.sdim() as nat, |i: int| normed_inplace(x_res, self.weights.data@.subrange(
                self.weights.layout.rms_final as int,
                self.weights.layout.rms_final + c.sdim(),
            ), i)));
            assert forall|v: int| 0 <= v < vocab implies #[trigger] self.logits@[v] == classify(&self.weights, x_res)[v] by {
                lemma_cell_coords(vc, vocab as int, 1, v, 0);
                assert(vc.at(v, 0) == v);
            }
            assert(self.logits@ =~= classify(&self.weights, x_res));
            assert forall|l: int| 0 <= l < old(self).layers@.len() implies #[trigger] old(self).layer_caches(self, seq![token], pos as int, l) by {
                assert(old(self).layer_caches(&after_update, seq![token], pos as int, l));
            }
        }
        Ok(self.logits.as_slice())
    }
}

/// A call that succeeds at position `pos` leaves every key and value of
/// every earlier position exactly as it was.
pub proof fn lemma_earlier_positions_kept<T: Real>(
    before: Transformer<T>,
    after: Transformer<T>,
    pos: int,
    n: int,
    p: int,
    l: int,
    j: int,
)
    requires
        before.wf(),
        before.caches_kept(&after, pos, pos + n),
        0 <= p < pos,
        n >= 0,
        pos + n <= before.config().sseq(),
        0 <= l < before.layers@.len(),
        0 <= j < before.config().skv_dim(),
    ensures
        after.layers@[l].k_cache@[p * before.config().skv_dim() + j] == before.layers@[l].k_cache@[p
            * before.config().skv_dim() + j],
        after.layers@[l].v_cache@[p * before.config().skv_dim() + j] == before.layers@[l].v_cache@[p
            * before.config().skv_dim() + j],
{
    let c = before.config();
    let kv = c.skv_dim();
    lemma_kv_dim_bounds(c);
    assert(before.layers@[l].sized(c));
    assert(p * kv + j < pos * kv) by (nonlinear_arith)
        requires p < pos, j < kv, kv > 0;
    assert(0 <= p * kv + j) by (nonlinear_arith)
        requires p >= 0, j >= 0, kv > 0;
    assert(p * kv + j < c.sseq() * kv) by (nonlinear_arith)
        requires p < c.sseq(), j < kv, kv > 0;
}

proof fn lemma_row_cell(v: Strided, idx: int, kv: int, pos: int, n: int)
    requires
        v.offset == pos * kv,
        v.row_stride == 1,
        v.col_stride == kv,
        kv > 0,
        pos >= 0,
        pos * kv <= idx < (pos + n) * kv,
    ensures
        0 <= idx % kv < kv,
        0 <= idx / kv - pos < n,
        v.at(idx % kv, idx / kv - pos) == idx,
{
    vstd::arithmetic::div_mod::lemma_fundamental_div_mod(idx, kv);
    let q = idx / kv;
    let r = idx % kv;
    assert(pos <= q < pos + n) by (nonlinear_arith)
        requires idx == kv * q + r, 0 <= r < kv, pos * kv <= idx, idx < (pos + n) * kv, kv > 0;
    assert(v.at(r, q - pos) == pos * kv + r * 1 + (q - pos) * kv);
    assert(pos * kv + r * 1 + (q - pos) * kv == idx) by (nonlinear_arith)
        requires idx == kv * q + r;
}

proof fn lemma_rotated_same_row<T: Real>(
    a: Seq<T>,
    b: Seq<T>,
    table: Seq<T>,
    base: int,
    start: int,
    kv: int,
    idx: int,
)
    requires
        start <= idx < start + kv,
        kv % 2 == 0,
        forall|t: int| start <= t < start + kv ==> #[trigger] a[t] == b[t],
    ensures
        rotated(a, table, base, start, idx) == rotated(b, table, base, start, idx),
{
    let l = idx - start;
    assert(a[idx] == b[idx]);
    if l % 2 == 0 {
        assert(idx + 1 < start + kv);
        assert(a[idx + 1] == b[idx + 1]);
    } else {
        assert(a[idx - 1] == b[idx - 1]);
    }
}

/// The residual stream that starts the pipeline: the embedding row of
/// each token, one after another.
pub open spec fn embedded<T>(w: &Weights<T>, tokens: Seq<u32>) -> Seq<T> {
    let d = w.config.sdim();
    Seq::new((tokens.len() * d) as nat, |idx: int| w.data@[tokens[idx / d] * d + idx % d])
}

/// The logits of a final residual row `x`: the classifier times `x`
/// normalized with the final norm weight (`x * (weight * scale)`).
pub open spec fn classify<T: Real>(w: &Weights<T>, x: Seq<T>) -> Seq<T> {
    let d = w.config.sdim();
    let norm = w.data@.subrange(w.layout.rms_final as int, w.layout.rms_final + d);
    let xf = Seq::new(d as nat, |i: int| normed_inplace(x, norm, i));
    Seq::new(w.config.svocab() as nat, |v: int| proj(w.wcls_view(), xf, d, v, 0))
}

/// Row `r` of the `rows x width` matrix `wt` (row-major) times column `i`
/// of `x` (`i`-th row of width `width`).
pub open spec fn proj<T: Real>(wt: Seq<T>, x: Seq<T>, width: int, r: int, i: int) -> T {
    T::one_s().mul_s(
        dot(
            wt,
            Strided { offset: 0, row_stride: width as usize, col_stride: 1 },
            x,
            Strided { offset: 0, row_stride: 1, col_stride: width as usize },
            r,
            i,
            width,
        ),
    )
}

/// The residual stream `x0` normalized row by row with `weight`.
pub open spec fn normalized<T: Real>(x0: Seq<T>, weight: Seq<T>) -> Seq<T> {
    Seq::new(x0.len(), |idx: int| normed(x0, weight, idx))
}

/// Cache element `idx`, in the rows of positions `[pos, pos + n)`, of the
/// projection `wt` (`kv x dim`) of the normalized batch `xn`; other elements
/// as in `before`.
pub open spec fn projected_rows<T: Real>(
    before: Seq<T>,
    wt: Seq<T>,
    xn: Seq<T>,
    d: int,
    kv: int,
    pos: int,
    n: int,
) -> Seq<T> {
    Seq::new(
        before.len(),
        |idx: int|
            if pos * kv <= idx < (pos + n) * kv {
                proj(wt, xn, d, idx % kv, idx / kv - pos)
            } else {
                before[idx]
            },
    )
}

/// `keys` with each row of positions `[pos, pos + n)` rotated by the
/// table row of its own position.
pub open spec fn rotated_rows<T: Real>(keys: Seq<T>, table: Seq<T>, d: int, kv: int, pos: int, n: int) -> Seq<T> {
    Seq::new(
        keys.len(),
        |idx: int|
            if pos * kv <= idx < (pos + n) * kv {
                rotated(keys, table, idx / kv * d, idx / kv * kv, idx)
            } else {
                keys[idx]
            },
    )
}

/// The `rows x n` product of `wt` (`rows x width`, row-major) with the
/// batch `x` (`n` rows of `width`), laid out as `n` rows of `rows`.
pub open spec fn projected<T: Real>(wt: Seq<T>, x: Seq<T>, width: int, rows: int, n: int) -> Seq<T> {
    Seq::new((n * rows) as nat, |idx: int| proj(wt, x, width, idx % rows, idx / rows))
}

/// `x0 + wt * x`, the residual add, row by row.
pub open spec fn residual_add<T: Real>(x0: Seq<T>, wt: Seq<T>, x: Seq<T>, width: int, d: int) -> Seq<T> {
    Seq::new(x0.len(), |idx: int| T::one_s().mul_s(x0[idx]).add_s(proj(wt, x, width, idx % d, idx / d)))
}

/// Query row `i`, at position `pos + i`, rotated by its table row.
pub open spec fn rotated_queries<T: Real>(q: Seq<T>, table: Seq<T>, d: int, pos: int) -> Seq<T> {
    Seq::new(q.len(), |idx: int| rotated(q, table, (pos + idx / d) * d, idx / d * d, idx))
}

/// The normalized input of layer `l`'s attention.
pub open spec fn attn_input<T: Real>(w: &Weights<T>, l: int, x0: Seq<T>) -> Seq<T> {
    normalized(x0, w.stacked_view(w.layout.rms_att as int, w.config.sdim(), l))
}

/// Layer `l`'s key cache after a batch whose residual stream is `x0`.
pub open spec fn layer_keys<T: Real>(w: &Weights<T>, table: Seq<T>, l: int, x0: Seq<T>, k0: Seq<T>, pos: int, n: int) -> Seq<T> {
    let c = w.config;
    let wk = w.stacked_view(w.layout.wk as int, c.skv_dim() * c.sdim(), l);
    rotated_rows(projected_rows(k0, wk, attn_input(w, l, x0), c.sdim(), c.skv_dim(), pos, n), table, c.sdim(), c.skv_dim(), pos, n)
}

/// Layer `l`'s value cache after a batch whose residual stream is `x0`.
pub open spec fn layer_values<T: Real>(w: &Weights<T>, l: int, x0: Seq<T>, v0: Seq<T>, pos: int, n: int) -> Seq<T> {
    let c = w.config;
    let wv = w.stacked_view(w.layout.wv as int, c.skv_dim() * c.sdim(), l);
    projected_rows(v0, wv, attn_input(w, l, x0), c.sdim(), c.skv_dim(), pos, n)
}

/// The residual stream after layer `l`, for a batch of `n` rows at
/// positions `[pos, pos + n)` with residual stream `x0` and caches `k0`,
/// `v0` before it: attention (causal softmax over the valid rows), the
/// `wo` residual add, RMSNorm, SwiGLU and the `w2` residual add.
pub open spec fn layer_out<T: Real>(w: &Weights<T>, table: Seq<T>, l: int, x0: Seq<T>, k0: Seq<T>, v0: Seq<T>, pos: int, n: int) -> Seq<T> {
    let c = w.config;
    let d = c.sdim();
    let hd = c.shidden();
    let xn = attn_input(w, l, x0);
    let q = rotated_queries(projected(w.stacked_view(w.layout.wq as int, d * d, l), xn, d, d, n), table, d, pos);
    let xa = attention_out(c, q, layer_keys(w, table, l, x0, k0, pos, n), layer_values(w, l, x0, v0, pos, n), pos, n);
    let x0b = residual_add(x0, w.stacked_view(w.layout.wo as int, d * d, l), xa, d, d);
    let xf = normalized(x0b, w.stacked_view(w.layout.rms_ffn as int, d, l));
    let gate = projected(w.stacked_view(w.layout.w1 as int, hd * d, l), xf, d, hd, n);
    let up = projected(w.stacked_view(w.layout.w3 as int, hd * d, l), xf, d, hd, n);
    let act = Seq::new((n * hd) as nat, |idx: int| gate[idx].mul_s(gate[idx].sigmoid_s().mul_s(up[idx])));
    residual_add(x0b, w.stacked_view(w.layout.w2 as int, hd * d, l), act, hd, d)
}

/// The residual stream after the first `l` layers, for a batch of `n`
/// rows at positions `[pos, pos + n)` that starts as `x0`, with the caches
/// `ks`, `vs` that the layers held before.
pub open spec fn stack_out<T: Real>(
    w: &Weights<T>,
    table: Seq<T>,
    ks: Seq<Seq<T>>,
    vs: Seq<Seq<T>>,
    x0: Seq<T>,
    pos: int,
    n: int,
    l: int,
) -> Seq<T>
    decreases l,
{
    if l <= 0 {
        x0
    } else {
        layer_out(w, table, l - 1, stack_out(w, table, ks, vs, x0, pos, n, l - 1), ks[l - 1], vs[l - 1], pos, n)
    }
}

/// `a` and `b` hold the same elements in the rows before row `hi`.
pub open spec fn prefix_rows_agree<T>(a: Seq<T>, b: Seq<T>, width: int, hi: int) -> bool {
    &&& a.len() == b.len()
    &&& forall|idx: int| 0 <= idx < a.len() && idx < hi * width ==> #[trigger] a[idx] == b[idx]
}

/// A cell of a key/value head's view of the first `rows` positions lies in
/// those positions' rows.
proof fn lemma_cache_cell_in_rows(c: Config, g: int, p: int, t: int, rows: int)
    requires
        c.wf(),
        0 <= g < c.skv_heads(),
        0 <= p < c.shead_size(),
        0 <= t < rows,
    ensures
        0 <= cache_view(c, g).at(p, t) < rows * c.skv_dim(),
{
    lemma_kv_dim_bounds(c);
    let hs = c.shead_size();
    let kv = c.skv_dim();
    assert(g * hs + hs <= kv) by (nonlinear_arith)
        requires g < c.skv_heads(), kv == hs * c.skv_heads(), hs > 0, g >= 0;
    assert(0 <= g * hs) by (nonlinear_arith)
        requires g >= 0, hs > 0;
    assert(cache_view(c, g).at(p, t) == g * hs + p + t * kv);
    assert((t + 1) * kv <= rows * kv) by (nonlinear_arith)
        requires t + 1 <= rows, kv > 0;
    assert((t + 1) * kv == t * kv + kv) by (nonlinear_arith);
    assert(g * hs + p + t * kv < rows * kv);
    assert(0 <= t * kv) by (nonlinear_arith)
        requires t >= 0, kv > 0;
}

/// Attention rows `0..m` read only query rows `0..m` and the cache rows of
/// positions below `pos + m`.
proof fn lemma_attention_rows<T: Real>(
    c: Config,
    q1: Seq<T>,
    q2: Seq<T>,
    k1: Seq<T>,
    k2: Seq<T>,
    v1: Seq<T>,
    v2: Seq<T>,
    pos: int,
    n1: int,
    n2: int,
    m: int,
)
    requires
        c.wf(),
        pos >= 0,
        0 <= m <= n1,
        m <= n2,
        agree_below(q1, q2, m * c.sdim()),
        prefix_rows_agree(k1, k2, c.skv_dim(), pos + m),
        prefix_rows_agree(v1, v2, c.skv_dim(), pos + m),
        k1.len() >= (pos + m) * c.skv_dim(),
        v1.len() >= (pos + m) * c.skv_dim(),
    ensures
        agree_below(attention_out(c, q1, k1, v1, pos, n1), attention_out(c, q2, k2, v2, pos, n2), m * c.sdim()),
{
    lemma_kv_dim_bounds(c);
    let d = c.sdim();
    let hs = c.shead_size();
    assert(m * d <= n1 * d && m * d <= n2 * d) by (nonlinear_arith)
        requires m <= n1, m <= n2, d > 0;
    assert forall|idx: int| 0 <= idx < m * d implies #[trigger] attention_out(c, q1, k1, v1, pos, n1)[idx]
        == attention_out(c, q2, k2, v2, pos, n2)[idx] by {
        lemma_in_rows(idx, d, m);
        let i = idx / d;
        let col = idx % d;
        let h = col / hs;
        let g = h / c.skv_mul();
        vstd::arithmetic::div_mod::lemma_fundamental_div_mod(col, hs);
        assert(0 <= h < c.sheads()) by (nonlinear_arith)
            requires col == hs * h + col % hs, 0 <= col % hs, col < d, d == hs * c.sheads(), hs > 0, col >= 0;
        assert(h * hs + hs <= d) by (nonlinear_arith)
            requires h < c.sheads(), d == hs * c.sheads(), hs > 0;
        assert(0 <= g < c.skv_heads()) by {
            vstd::arithmetic::div_mod::lemma_fundamental_div_mod(h, c.skv_mul());
            assert(g < c.skv_heads()) by (nonlinear_arith)
                requires h == c.skv_mul() * g + h % c.skv_mul(), 0 <= h % c.skv_mul(), h < c.sheads(),
                    c.skv_mul() * c.skv_heads() == c.sheads(), c.skv_mul() > 0;
            assert(g >= 0) by (nonlinear_arith)
                requires h >= 0, c.skv_mul() > 0, g == h / c.skv_mul();
        }
        let valid = pos + i + 1;
        let s1 = Seq::new(valid as nat, |t: int| score(c, q1, k1, h, i, t));
        let s2 = Seq::new(valid as nat, |t: int| score(c, q2, k2, h, i, t));
        assert forall|p: int| 0 <= p < hs implies #[trigger] q1[query_view(c, h).at(i, p)] == q2[query_view(c, h).at(i, p)] by {
            assert(query_view(c, h).at(i, p) == h * hs + i * d + p * 1);
            assert(0 <= h * hs) by (nonlinear_arith)
                requires h >= 0, hs > 0;
            assert(0 <= i * d && i * d + d <= m * d) by (nonlinear_arith)
                requires 0 <= i < m, d > 0;
        }
        assert forall|t: int| 0 <= t < valid implies #[trigger] s1[t] == s2[t] by {
            assert forall|p: int| 0 <= p < hs implies #[trigger] k1[cache_view(c, g).at(p, t)] == k2[cache_view(c, g).at(p, t)] by {
                lemma_cache_cell_in_rows(c, g, p, t, pos + m);
            }
            lemma_dot_ext(q1, query_view(c, h), q2, query_view(c, h), k1, cache_view(c, g), k2, cache_view(c, g), i, t, hs);
        }
        assert(s1 =~= s2);
        assert(weights_row(c, q1, k1, pos, h, i) =~= weights_row(c, q2, k2, pos, h, i));
        let wr = weights_row(c, q1, k1, pos, h, i);
        assert forall|p: int| 0 <= p < valid implies #[trigger] v1[cache_view(c, g).at(col % hs, p)] == v2[cache_view(c, g).at(col % hs, p)] by {
            lemma_cache_cell_in_rows(c, g, col % hs, p, pos + m);
        }
        lemma_dot_ext(v1, cache_view(c, g), v2, cache_view(c, g), wr, unit_view(), wr, unit_view(), col % hs, 0, valid);
    }
}

/// One layer over caches that agree below position `pos` gives the same
/// output, and new caches that agree below `pos + n`.
proof fn lemma_layer_prefix<T: Real>(
    w: &Weights<T>,
    table: Seq<T>,
    l: int,
    x0: Seq<T>,
    k1: Seq<T>,
    k2: Seq<T>,
    v1: Seq<T>,
    v2: Seq<T>,
    pos: int,
    n: int,
)
    requires
        w.wf(),
        pos >= 0,
        n >= 0,
        pos + n <= w.config.sseq(),
        k1.len() == w.config.sseq() * w.config.skv_dim(),
        v1.len() == w.config.sseq() * w.config.skv_dim(),
        prefix_rows_agree(k1, k2, w.config.skv_dim(), pos),
        prefix_rows_agree(v1, v2, w.config.skv_dim(), pos),
    ensures
        prefix_rows_agree(layer_keys(w, table, l, x0, k1, pos, n), layer_keys(w, table, l, x0, k2, pos, n), w.config.skv_dim(), pos + n),
        prefix_rows_agree(layer_values(w, l, x0, v1, pos, n), layer_values(w, l, x0, v2, pos, n), w.config.skv_dim(), pos + n),
        layer_out(w, table, l, x0, k1, v1, pos, n) == layer_out(w, table, l, x0, k2, v2, pos, n),
{
    let c = w.config;
    lemma_kv_dim_bounds(c);
    let kv = c.skv_dim();
    let d = c.sdim();
    let xn = attn_input(w, l, x0);
    let wk = w.stacked_view(w.layout.wk as int, kv * d, l);
    let p1 = projected_rows(k1, wk, xn, d, kv, pos, n);
    let p2 = projected_rows(k2, wk, xn, d, kv, pos, n);
    let kk1 = layer_keys(w, table, l, x0, k1, pos, n);
    let kk2 = layer_keys(w, table, l, x0, k2, pos, n);
    assert(kv % 2 == 0) by {
        let hs = c.shead_size();
        assert(kv == hs * c.skv_heads());
        assert(hs == 2 * (hs / 2));
        assert(kv == 2 * ((hs / 2) * c.skv_heads())) by (nonlinear_arith)
            requires kv == hs * c.skv_heads(), hs == 2 * (hs / 2);
    }
    assert((pos + n) * kv <= k1.len()) by (nonlinear_arith)
        requires pos + n <= c.sseq(), k1.len() == c.sseq() * kv, kv > 0;
    assert forall|idx: int| 0 <= idx < kk1.len() && idx < (pos + n) * kv implies #[trigger] kk1[idx] == kk2[idx] by {
        if pos * kv <= idx {
            let row = idx / kv;
            vstd::arithmetic::div_mod::lemma_fundamental_div_mod(idx, kv);
            assert(row * kv <= idx < row * kv + kv) by (nonlinear_arith)
                requires idx == kv * row + idx % kv, 0 <= idx % kv < kv;
            assert(pos <= row < pos + n) by (nonlinear_arith)
                requires row * kv <= idx < row * kv + kv, pos * kv <= idx, idx < (pos + n) * kv, kv > 0;
            assert(pos * kv <= row * kv && row * kv + kv <= (pos + n) * kv) by (nonlinear_arith)
                requires pos <= row < pos + n, kv > 0;
            assert forall|t: int| row * kv <= t < row * kv + kv implies #[trigger] p1[t] == p2[t] by {}
            lemma_rotated_same_row(p1, p2, table, row * d, row * kv, kv, idx);
        }
    }
    let vv1 = layer_values(w, l, x0, v1, pos, n);
    let vv2 = layer_values(w, l, x0, v2, pos, n);
    assert forall|idx: int| 0 <= idx < vv1.len() && idx < (pos + n) * kv implies #[trigger] vv1[idx] == vv2[idx] by {}
    let q = rotated_queries(projected(w.stacked_view(w.layout.wq as int, d * d, l), xn, d, d, n), table, d, pos);
    assert((pos + n) * kv <= k1.len()) by (nonlinear_arith)
        requires pos + n <= c.sseq(), k1.len() == c.sseq() * kv, kv > 0;
    assert(n * c.sdim() <= q.len());
    lemma_attention_rows(c, q, q, kk1, kk2, vv1, vv2, pos, n, n, n);
    assert(attention_out(c, q, kk1, vv1, pos, n) =~= attention_out(c, q, kk2, vv2, pos, n));
}

/// Cache rows at or past the end of the batch are never read: two models
/// that agree on everything but the cache rows of positions `pos` and
/// later return the same residual stream for a batch at `pos`.
pub proof fn lemma_later_rows_unread<T: Real>(m1: Transformer<T>, m2: Transformer<T>, tokens: Seq<u32>, pos: int)
    requires
        m1.wf(),
        m2.wf(),
        m1.weights == m2.weights,
        m1.embedder == m2.embedder,
        m1.layers@.len() == m2.layers@.len(),
        pos >= 0,
        pos + tokens.len() <= m1.config().sseq(),
        forall|l: int| 0 <= l < m1.layers@.len() ==> prefix_rows_agree(#[trigger] m1.layers@[l].k_cache@, m2.layers@[l].k_cache@, m1.config().skv_dim(), pos),
        forall|l: int| 0 <= l < m1.layers@.len() ==> prefix_rows_agree(#[trigger] m1.layers@[l].v_cache@, m2.layers@[l].v_cache@, m1.config().skv_dim(), pos),
    ensures
        m1.output(tokens, pos) == m2.output(tokens, pos),
{
    lemma_stack_prefix(m1, m2, tokens, pos, m1.layers@.len() as int);
}

proof fn lemma_stack_prefix<T: Real>(m1: Transformer<T>, m2: Transformer<T>, tokens: Seq<u32>, pos: int, l: int)
    requires
        m1.wf(),
        m2.wf(),
        m1.weights == m2.weights,
        m1.embedder == m2.embedder,
        m1.layers@.len() == m2.layers@.len(),
        pos >= 0,
        pos + tokens.len() <= m1.config().sseq(),
        0 <= l <= m1.layers@.len(),
        forall|j: int| 0 <= j < m1.layers@.len() ==> prefix_rows_agree(#[trigger] m1.layers@[j].k_cache@, m2.layers@[j].k_cache@, m1.config().skv_dim(), pos),
        forall|j: int| 0 <= j < m1.layers@.len() ==> prefix_rows_agree(#[trigger] m1.layers@[j].v_cache@, m2.layers@[j].v_cache@, m1.config().skv_dim(), pos),
    ensures
        m1.stream(tokens, pos, l) == m2.stream(tokens, pos, l),
    decreases l,
{
    if l > 0 {
        lemma_stack_prefix(m1, m2, tokens, pos, l - 1);
        let j = l - 1;
        assert(m1.layers@[j].sized(m1.config()));
        assert(m1.key_caches()[j] == m1.layers@[j].k_cache@);
        assert(m2.key_caches()[j] == m2.layers@[j].k_cache@);
        assert(m1.value_caches()[j] == m1.layers@[j].v_cache@);
        assert(m2.value_caches()[j] == m2.layers@[j].v_cache@);
        assert(prefix_rows_agree(m1.layers@[j].k_cache@, m2.layers@[j].k_cache@, m1.config().skv_dim(), pos));
        assert(prefix_rows_agree(m1.layers@[j].v_cache@, m2.layers@[j].v_cache@, m1.config().skv_dim(), pos));
        lemma_layer_prefix(
            &m1.weights,
            m1.embedder.rotary@,
            j,
            m1.stream(tokens, pos, j),
            m1.layers@[j].k_cache@,
            m2.layers@[j].k_cache@,
            m1.layers@[j].v_cache@,
            m2.layers@[j].v_cache@,
            pos,
            tokens.len() as int,
        );
    }
}

/// `a` and `b` agree on their first `hi` elements.
pub open spec fn agree_below<T>(a: Seq<T>, b: Seq<T>, hi: int) -> bool {
    &&& hi <= a.len()
    &&& hi <= b.len()
    &&& forall|idx: int| 0 <= idx < hi ==> #[trigger] a[idx] == b[idx]
}

proof fn lemma_sum_sq_ext<T: Real>(x1: Seq<T>, x2: Seq<T>, base: int, j: int)
    requires
        forall|t: int| 0 <= t < j ==> #[trigger] x1[base + t] == x2[base + t],
    ensures
        sum_sq(x1, base, j) == sum_sq(x2, base, j),
    decreases j,
{
    if j > 0 {
        lemma_sum_sq_ext(x1, x2, base, j - 1);
        assert(x1[base + (j - 1)] == x2[base + (j - 1)]);
    }
}

/// Row `i < m` of a batch laid out in rows of `width` lies below `m * width`.
proof fn lemma_in_rows(idx: int, width: int, m: int)
    requires
        width > 0,
        0 <= idx < m * width,
    ensures
        0 <= idx / width < m,
        idx / width * width <= idx < idx / width * width + width,
        idx / width * width + width <= m * width,
        idx % width == idx - idx / width * width,
{
    vstd::arithmetic::div_mod::lemma_fundamental_div_mod(idx, width);
    let q = idx / width;
    assert(0 <= q < m) by (nonlinear_arith)
        requires idx == width * q + idx % width, 0 <= idx % width < width, 0 <= idx < m * width, width > 0;
    assert(q * width == width * q) by (nonlinear_arith);
    assert(q * width + width <= m * width) by (nonlinear_arith)
        requires q < m, width > 0;
}

proof fn lemma_normalized_rows<T: Real>(x1: Seq<T>, x2: Seq<T>, w: Seq<T>, m: int)
    requires
        w.len() > 0,
        agree_below(x1, x2, m * w.len()),
    ensures
        forall|idx: int| 0 <= idx < m * w.len() ==> #[trigger] normalized(x1, w)[idx] == normalized(x2, w)[idx],
{
    let d = w.len() as int;
    assert forall|idx: int| 0 <= idx < m * d implies #[trigger] normalized(x1, w)[idx] == normalized(x2, w)[idx] by {
        lemma_in_rows(idx, d, m);
        let base = idx / d * d;
        assert forall|t: int| 0 <= t < d implies #[trigger] x1[base + t] == x2[base + t] by {}
        lemma_sum_sq_ext(x1, x2, base, d);
    }
}

proof fn lemma_projected_rows<T: Real>(wt: Seq<T>, x1: Seq<T>, x2: Seq<T>, width: int, rows: int, n1: int, n2: int, m: int)
    requires
        width <= usize::MAX,
        width > 0,
        rows > 0,
        0 <= m <= n1,
        m <= n2,
        agree_below(x1, x2, m * width),
    ensures
        agree_below(projected(wt, x1, width, rows, n1), projected(wt, x2, width, rows, n2), m * rows),
{
    assert(m * rows <= n1 * rows && m * rows <= n2 * rows) by (nonlinear_arith)
        requires m <= n1, m <= n2, rows > 0;
    assert forall|idx: int| 0 <= idx < m * rows implies #[trigger] projected(wt, x1, width, rows, n1)[idx]
        == projected(wt, x2, width, rows, n2)[idx] by {
        lemma_in_rows(idx, rows, m);
        let i = idx / rows;
        let xv = Strided { offset: 0, row_stride: 1, col_stride: width as usize };
        assert forall|p: int| 0 <= p < width implies #[trigger] x1[xv.at(p, i)] == x2[xv.at(p, i)] by {
            assert(p * 1 == p);
            assert(xv.at(p, i) == p + i * width);
            assert(p + i * width < m * width) by (nonlinear_arith)
                requires p < width, i < m, i >= 0, width > 0;
            assert(0 <= i * width) by (nonlinear_arith)
                requires i >= 0, width > 0;
        }
        let wv = Strided { offset: 0, row_stride: width as usize, col_stride: 1 };
        lemma_dot_ext(wt, wv, wt, wv, x1, xv, x2, xv, idx % rows, i, width);
    }
}

proof fn lemma_residual_rows<T: Real>(a1: Seq<T>, a2: Seq<T>, wt: Seq<T>, x1: Seq<T>, x2: Seq<T>, width: int, d: int, m: int)
    requires
        width <= usize::MAX,
        width > 0,
        d > 0,
        agree_below(a1, a2, m * d),
        agree_below(x1, x2, m * width),
    ensures
        agree_below(residual_add(a1, wt, x1, width, d), residual_add(a2, wt, x2, width, d), m * d),
{
    assert forall|idx: int| 0 <= idx < m * d implies #[trigger] residual_add(a1, wt, x1, width, d)[idx]
        == residual_add(a2, wt, x2, width, d)[idx] by {
        lemma_in_rows(idx, d, m);
        let i = idx / d;
        let xv = Strided { offset: 0, row_stride: 1, col_stride: width as usize };
        assert forall|p: int| 0 <= p < width implies #[trigger] x1[xv.at(p, i)] == x2[xv.at(p, i)] by {
            assert(p * 1 == p);
            assert(xv.at(p, i) == p + i * width);
            assert(p + i * width < m * width) by (nonlinear_arith)
                requires p < width, i < m, i >= 0, width > 0;
            assert(0 <= i * width) by (nonlinear_arith)
                requires i >= 0, width > 0;
        }
        let wv = Strided { offset: 0, row_stride: width as usize, col_stride: 1 };
        lemma_dot_ext(wt, wv, wt, wv, x1, xv, x2, xv, idx % d, i, width);
    }
}

/// The norm weights of layer `l` are `dim` long.
proof fn lemma_norm_weights<T>(w: &Weights<T>, l: int)
    requires
        w.wf(),
        0 <= l < w.config.slayers(),
    ensures
        w.stacked_view(w.layout.rms_att as int, w.config.sdim(), l).len() == w.config.sdim(),
        w.stacked_view(w.layout.rms_ffn as int, w.config.sdim(), l).len() == w.config.sdim(),
{
    let c = w.config;
    lemma_kv_dim_bounds(c);
    let d = c.sdim();
    let nl = c.slayers();
    let h = c.shidden();
    let kv = c.skv_dim();
    assert(nl * d >= 0 && nl * d * d >= 0 && nl * d * kv >= 0 && nl * d * h >= 0 && nl * h * d >= 0 && c.svocab() * d >= 0
        && c.sseq() * c.shead_size() / 2 * 2 >= 0) by (nonlinear_arith)
        requires nl > 0, d > 0, kv > 0, h > 0, c.svocab() >= 0, c.sseq() > 0, c.shead_size() > 0;
    crate::weights::lemma_stack(l, nl, d);
}

proof fn lemma_rotated_queries_rows<T: Real>(q1: Seq<T>, q2: Seq<T>, table: Seq<T>, d: int, pos: int, m: int)
    requires
        d > 0,
        d % 2 == 0,
        agree_below(q1, q2, m * d),
    ensures
        agree_below(rotated_queries(q1, table, d, pos), rotated_queries(q2, table, d, pos), m * d),
{
    assert forall|idx: int| 0 <= idx < m * d implies #[trigger] rotated_queries(q1, table, d, pos)[idx]
        == rotated_queries(q2, table, d, pos)[idx] by {
        lemma_in_rows(idx, d, m);
        let r = idx / d;
        assert forall|t: int| r * d <= t < r * d + d implies #[trigger] q1[t] == q2[t] by {}
        lemma_rotated_same_row(q1, q2, table, (pos + r) * d, r * d, d, idx);
    }
}

/// Rows `0..m` of one layer, and its new cache rows below `pos + m`, read
/// only rows `0..m` of the residual stream.
proof fn lemma_layer_rows<T: Real>(
    w: &Weights<T>,
    table: Seq<T>,
    l: int,
    x1: Seq<T>,
    x2: Seq<T>,
    k0: Seq<T>,
    v0: Seq<T>,
    pos: int,
    n1: int,
    n2: int,
    m: int,
)
    requires
        w.wf(),
        0 <= l < w.config.slayers(),
        pos >= 0,
        0 <= m <= n1,
        m <= n2,
        pos + n1 <= w.config.sseq(),
        pos + n2 <= w.config.sseq(),
        k0.len() == w.config.sseq() * w.config.skv_dim(),
        v0.len() == w.config.sseq() * w.config.skv_dim(),
        x1.len() == n1 * w.config.sdim(),
        x2.len() == n2 * w.config.sdim(),
        agree_below(x1, x2, m * w.config.sdim()),
    ensures
        prefix_rows_agree(layer_keys(w, table, l, x1, k0, pos, n1), layer_keys(w, table, l, x2, k0, pos, n2), w.config.skv_dim(), pos + m),
        prefix_rows_agree(layer_values(w, l, x1, v0, pos, n1), layer_values(w, l, x2, v0, pos, n2), w.config.skv_dim(), pos + m),
        agree_below(layer_out(w, table, l, x1, k0, v0, pos, n1), layer_out(w, table, l, x2, k0, v0, pos, n2), m * w.config.sdim()),
        layer_out(w, table, l, x1, k0, v0, pos, n1).len() == x1.len(),
{
    let c = w.config;
    lemma_kv_dim_bounds(c);
    lemma_norm_weights(w, l);
    lemma_batch_bounds(c, n1);
    let d = c.sdim();
    let kv = c.skv_dim();
    let hd = c.shidden();
    assert(kv % 2 == 0 && d % 2 == 0) by {
        let hs = c.shead_size();
        assert(hs == 2 * (hs / 2));
        assert(kv == 2 * ((hs / 2) * c.skv_heads())) by (nonlinear_arith)
            requires kv == hs * c.skv_heads(), hs == 2 * (hs / 2);
        assert(d == 2 * ((hs / 2) * c.sheads())) by (nonlinear_arith)
            requires d == hs * c.sheads(), hs == 2 * (hs / 2);
    }
    let xn1 = attn_input(w, l, x1);
    let xn2 = attn_input(w, l, x2);
    lemma_normalized_rows(x1, x2, w.stacked_view(w.layout.rms_att as int, d, l), m);
    assert(agree_below(xn1, xn2, m * d)) by {
        assert(m * d <= n1 * d && m * d <= n2 * d) by (nonlinear_arith)
            requires m <= n1, m <= n2, d > 0;
    }
    // queries
    let wq = w.stacked_view(w.layout.wq as int, d * d, l);
    lemma_projected_rows(wq, xn1, xn2, d, d, n1, n2, m);
    lemma_rotated_queries_rows(projected(wq, xn1, d, d, n1), projected(wq, xn2, d, d, n2), table, d, pos, m);
    let q1 = rotated_queries(projected(wq, xn1, d, d, n1), table, d, pos);
    let q2 = rotated_queries(projected(wq, xn2, d, d, n2), table, d, pos);
    // caches
    let wk = w.stacked_view(w.layout.wk as int, kv * d, l);
    let wv = w.stacked_view(w.layout.wv as int, kv * d, l);
    let p1 = projected_rows(k0, wk, xn1, d, kv, pos, n1);
    let p2 = projected_rows(k0, wk, xn2, d, kv, pos, n2);
    let u1 = projected_rows(v0, wv, xn1, d, kv, pos, n1);
    let u2 = projected_rows(v0, wv, xn2, d, kv, pos, n2);
    assert((pos + m) * kv <= k0.len() && (pos + m) * kv <= (pos + n1) * kv && (pos + m) * kv <= (pos + n2) * kv) by (nonlinear_arith)
        requires pos + m <= pos + n1, pos + m <= pos + n2, pos + n1 <= c.sseq(), k0.len() == c.sseq() * kv, kv > 0;
    assert forall|t: int| 0 <= t < k0.len() && t < (pos + m) * kv implies #[trigger] p1[t] == p2[t] && u1[t] == u2[t] by {
        if pos * kv <= t {
            vstd::arithmetic::div_mod::lemma_fundamental_div_mod(t, kv);
            let row = t / kv;
            assert(pos <= row < pos + m) by (nonlinear_arith)
                requires t == kv * row + t % kv, 0 <= t % kv < kv, pos * kv <= t, t < (pos + m) * kv, kv > 0;
            let i = row - pos;
            let xv = Strided { offset: 0, row_stride: 1, col_stride: d as usize };
            assert forall|p: int| 0 <= p < d implies #[trigger] xn1[xv.at(p, i)] == xn2[xv.at(p, i)] by {
                assert(p * 1 == p);
                assert(xv.at(p, i) == p + i * d);
                assert(0 <= p + i * d < m * d) by (nonlinear_arith)
                    requires 0 <= p < d, 0 <= i < m, d > 0;
            }
            let wvw = Strided { offset: 0, row_stride: d as usize, col_stride: 1 };
            lemma_dot_ext(wk, wvw, wk, wvw, xn1, xv, xn2, xv, t % kv, i, d);
            lemma_dot_ext(wv, wvw, wv, wvw, xn1, xv, xn2, xv, t % kv, i, d);
            assert(t < (pos + n1) * kv && t < (pos + n2) * kv);
        }
    }
    let kk1 = layer_keys(w, table, l, x1, k0, pos, n1);
    let kk2 = layer_keys(w, table, l, x2, k0, pos, n2);
    assert forall|idx: int| 0 <= idx < kk1.len() && idx < (pos + m) * kv implies #[trigger] kk1[idx] == kk2[idx] by {
        if pos * kv <= idx {
            let row = idx / kv;
            vstd::arithmetic::div_mod::lemma_fundamental_div_mod(idx, kv);
            assert(row * kv <= idx < row * kv + kv) by (nonlinear_arith)
                requires idx == kv * row + idx % kv, 0 <= idx % kv < kv;
            assert(pos <= row < pos + m) by (nonlinear_arith)
                requires row * kv <= idx < row * kv + kv, pos * kv <= idx, idx < (pos + m) * kv, kv > 0;
            assert(pos * kv <= row * kv && row * kv + kv <= (pos + m) * kv) by (nonlinear_arith)
                requires pos <= row < pos + m, kv > 0;
            assert forall|t: int| row * kv <= t < row * kv + kv implies #[trigger] p1[t] == p2[t] by {}
            lemma_rotated_same_row(p1, p2, table, row * d, row * kv, kv, idx);
            assert(idx < (pos + n1) * kv && idx < (pos + n2) * kv);
        }
    }
    let vv1 = layer_values(w, l, x1, v0, pos, n1);
    let vv2 = layer_values(w, l, x2, v0, pos, n2);
    assert forall|idx: int| 0 <= idx < vv1.len() && idx < (pos + m) * kv implies #[trigger] vv1[idx] == vv2[idx] by {
        assert(p1[idx] == p2[idx] && u1[idx] == u2[idx]);
    }
    // attention and the rest of the layer
    lemma_attention_rows(c, q1, q2, kk1, kk2, vv1, vv2, pos, n1, n2, m);
    let xa1 = attention_out(c, q1, kk1, vv1, pos, n1);
    let xa2 = attention_out(c, q2, kk2, vv2, pos, n2);
    let wo = w.stacked_view(w.layout.wo as int, d * d, l);
    lemma_residual_rows(x1, x2, wo, xa1, xa2, d, d, m);
    let b1 = residual_add(x1, wo, xa1, d, d);
    let b2 = residual_add(x2, wo, xa2, d, d);
    let wf = w.stacked_view(w.layout.rms_ffn as int, d, l);
    lemma_normalized_rows(b1, b2, wf, m);
    let f1 = normalized(b1, wf);
    let f2 = normalized(b2, wf);
    assert(agree_below(f1, f2, m * d));
    let w1 = w.stacked_view(w.layout.w1 as int, hd * d, l);
    let w3 = w.stacked_view(w.layout.w3 as int, hd * d, l);
    lemma_projected_rows(w1, f1, f2, d, hd, n1, n2, m);
    lemma_projected_rows(w3, f1, f2, d, hd, n1, n2, m);
    let g1 = projected(w1, f1, d, hd, n1);
    let g2 = projected(w1, f2, d, hd, n2);
    let up1 = projected(w3, f1, d, hd, n1);
    let up2 = projected(w3, f2, d, hd, n2);
    let a1 = Seq::new((n1 * hd) as nat, |idx: int| g1[idx].mul_s(g1[idx].sigmoid_s().mul_s(up1[idx])));
    let a2 = Seq::new((n2 * hd) as nat, |idx: int| g2[idx].mul_s(g2[idx].sigmoid_s().mul_s(up2[idx])));
    assert(m * hd <= n1 * hd && m * hd <= n2 * hd) by (nonlinear_arith)
        requires m <= n1, m <= n2, hd > 0;
    assert(agree_below(a1, a2, m * hd)) by {
        assert forall|idx: int| 0 <= idx < m * hd implies #[trigger] a1[idx] == a2[idx] by {
            assert(g1[idx] == g2[idx] && up1[idx] == up2[idx]);
        }
    }
    let w2 = w.stacked_view(w.layout.w2 as int, hd * d, l);
    lemma_residual_rows(b1, b2, w2, a1, a2, hd, d, m);
}

/// The residual streams of two batches at `pos` that begin with the same
/// `k` tokens agree on their first `k` rows after every layer.
proof fn lemma_stream_rows<T: Real>(mm: Transformer<T>, t1: Seq<u32>, t2: Seq<u32>, pos: int, k: int, l: int)
    requires
        mm.wf(),
        pos >= 0,
        pos + t1.len() <= mm.config().sseq(),
        pos + t2.len() <= mm.config().sseq(),
        0 <= k <= t1.len(),
        k <= t2.len(),
        forall|i: int| 0 <= i < k ==> #[trigger] t1[i] == t2[i],
        0 <= l <= mm.layers@.len(),
    ensures
        agree_below(mm.stream(t1, pos, l), mm.stream(t2, pos, l), k * mm.config().sdim()),
        mm.stream(t1, pos, l).len() == t1.len() * mm.config().sdim(),
        mm.stream(t2, pos, l).len() == t2.len() * mm.config().sdim(),
    decreases l,
{
    let c = mm.config();
    let d = c.sdim();
    if l == 0 {
        let e1 = embedded(&mm.weights, t1);
        let e2 = embedded(&mm.weights, t2);
        assert(k * d <= t1.len() * d && k * d <= t2.len() * d) by (nonlinear_arith)
            requires k <= t1.len(), k <= t2.len(), d > 0;
        assert forall|idx: int| 0 <= idx < k * d implies #[trigger] e1[idx] == e2[idx] by {
            lemma_in_rows(idx, d, k);
        }
    } else {
        lemma_stream_rows(mm, t1, t2, pos, k, l - 1);
        let j = l - 1;
        assert(mm.layers@[j].sized(c));
        lemma_layer_rows(
            &mm.weights,
            mm.embedder.rotary@,
            j,
            mm.stream(t1, pos, j),
            mm.stream(t2, pos, j),
            mm.key_caches()[j],
            mm.value_caches()[j],
            pos,
            t1.len() as int,
            t2.len() as int,
            k,
        );
    }
}

/// Causality: for one model state, two batches at `pos` that begin with
/// the same `k` tokens give the same first `k` rows of the residual stream,
/// whatever tokens follow and however long each batch is.
pub proof fn lemma_causal_rows<T: Real>(mm: Transformer<T>, t1: Seq<u32>, t2: Seq<u32>, pos: int, k: int)
    requires
        mm.wf(),
        pos >= 0,
        pos + t1.len() <= mm.config().sseq(),
        pos + t2.len() <= mm.config().sseq(),
        0 <= k <= t1.len(),
        k <= t2.len(),
        forall|i: int| 0 <= i < k ==> #[trigger] t1[i] == t2[i],
    ensures
        agree_below(mm.output(t1, pos), mm.output(t2, pos), k * mm.config().sdim()),
{
    lemma_stream_rows(mm, t1, t2, pos, k, mm.layers@.len() as int);
}

/// Causality of the caches: in every layer, the key and value rows of
/// positions `pos..pos + k` that two such batches write are the same.
pub proof fn lemma_causal_caches<T: Real>(mm: Transformer<T>, t1: Seq<u32>, t2: Seq<u32>, pos: int, k: int, l: int)
    requires
        mm.wf(),
        pos >= 0,
        pos + t1.len() <= mm.config().sseq(),
        pos + t2.len() <= mm.config().sseq(),
        0 <= k <= t1.len(),
        k <= t2.len(),
        forall|i: int| 0 <= i < k ==> #[trigger] t1[i] == t2[i],
        0 <= l < mm.layers@.len(),
    ensures
        prefix_rows_agree(
            layer_keys(&mm.weights, mm.embedder.rotary@, l, mm.stream(t1, pos, l), mm.layers@[l].k_cache@, pos, t1.len() as int),
            layer_keys(&mm.weights, mm.embedder.rotary@, l, mm.stream(t2, pos, l), mm.layers@[l].k_cache@, pos, t2.len() as int),
            mm.config().skv_dim(),
            pos + k,
        ),
        prefix_rows_agree(
            layer_values(&mm.weights, l, mm.stream(t1, pos, l), mm.layers@[l].v_cache@, pos, t1.len() as int),
            layer_values(&mm.weights, l, mm.stream(t2, pos, l), mm.layers@[l].v_cache@, pos, t2.len() as int),
            mm.config().skv_dim(),
            pos + k,
        ),
{
    lemma_stream_rows(mm, t1, t2, pos, k, l);
    assert(mm.layers@[l].sized(mm.config()));
    lemma_layer_rows(
        &mm.weights,
        mm.embedder.rotary@,
        l,
        mm.stream(t1, pos, l),
        mm.stream(t2, pos, l),
        mm.layers@[l].k_cache@,
        mm.layers@[l].v_cache@,
        pos,
        t1.len() as int,
        t2.len() as int,
        k,
    );
}

/// One layer of the pipeline over the batch in `s`, at absolute positions
/// `[pos, pos + n)`: attention, reading and extending `layer`'s caches, then
/// the gated feed-forward block, each added into the residual stream `s.x0`.
#[verifier::spinoff_prover]
#[verifier::rlimit(60)]
fn block<T: Real>(
    w: &Weights<T>,
    emb: &RotaryEmbedder<T>,
    l: usize,
    layer: &mut Layer<T>,
    s: &mut RunState<T>,
    pos: usize,
    n: usize,
)
    requires
        w.wf(),
        emb.sized(w.config),
        old(layer).sized(w.config),
        old(s).sized(n as int, w.config),
        l < w.config.slayers(),
        pos + n <= w.config.sseq(),
    ensures
        final(layer).sized(w.config),
        final(s).sized(n as int, w.config),
        rows_kept(old(layer).k_cache@, final(layer).k_cache@, w.config.skv_dim(), pos as int, pos + n),
        rows_kept(old(layer).v_cache@, final(layer).v_cache@, w.config.skv_dim(), pos as int, pos + n),
        ({
            let c = w.config;
            let xn = normalized(old(s).x0@, w.stacked_view(w.layout.rms_att as int, c.sdim(), l as int));
            let wk = w.stacked_view(w.layout.wk as int, c.skv_dim() * c.sdim(), l as int);
            let wv = w.stacked_view(w.layout.wv as int, c.skv_dim() * c.sdim(), l as int);
            &&& final(layer).v_cache@ == projected_rows(old(layer).v_cache@, wv, xn, c.sdim(), c.skv_dim(), pos as int, n as int)
            &&& final(layer).k_cache@ == rotated_rows(
                projected_rows(old(layer).k_cache@, wk, xn, c.sdim(), c.skv_dim(), pos as int, n as int),
                emb.rotary@,
                c.sdim(),
                c.skv_dim(),
                pos as int,
                n as int,
            )
        }),
        final(s).x0@ == layer_out(w, emb.rotary@, l as int, old(s).x0@, old(layer).k_cache@, old(layer).v_cache@, pos as int, n as int),
{
    let c = w.config;
    proof {
        lemma_kv_dim_bounds(c);
        lemma_cache_fits(c);
        lemma_batch_bounds(c, n as int);
    }
    let ghost x0_in = s.x0@;
    let d = c.dim();
    let hd = c.hidden_dim();
    let kv = c.kv_dim();
    let seq = c.seq_len();
    let ghost k0 = layer.k_cache@;
    let ghost v0 = layer.v_cache@;

    // x1 = rmsnorm(x0, rms_att_weight[l])
    rmsnorm(&mut s.x1, &s.x0, w.rms_att_weight(l), n);

    // q = wq[l] * x1; k, v = wk[l] * x1, wv[l] * x1 into cache rows [pos, pos + n)
    let one = T::one();
    let v_w = Strided { offset: 0, row_stride: d, col_stride: 1 };
    let v_x = Strided { offset: 0, row_stride: 1, col_stride: d };
    proof {
        lemma_mul_le(n as int, d as int, n as int);
        lemma_mul_le(pos as int, kv as int, seq as int);
        lemma_mul_le((pos + n) as int, kv as int, seq as int);
        assert(pos * kv + n * kv == (pos + n) * kv) by (nonlinear_arith);
        assert(d * d == c.sdim() * c.sdim());
        lemma_rows_fit(v_w, 0, d as int, d as int, (d * d) as int);
        lemma_rows_fit(v_w, 0, kv as int, d as int, (kv * d) as int);
        lemma_cols_fit(v_x, 0, d as int, n as int, s.x1@.len() as int);
    }
    proof {
        lemma_separated_injective(v_x, (d) as int, (n) as int);
    }
    gemm(d, d, n, one, w.wq(l), v_w, s.x1.as_slice(), v_x, None, &mut s.q, v_x);
    let v_kv = Strided { offset: pos * kv, row_stride: 1, col_stride: kv };
    proof {
        lemma_cols_fit(v_kv, (pos * kv) as int, kv as int, n as int, layer.k_cache@.len() as int);
    }
    let ghost xn = normalized(s.x0@, w.stacked_view(w.layout.rms_att as int, c.sdim(), l as int));
    assert(s.x1@ =~= xn);
    let ghost qp = s.q@;
    proof {
        let wq = w.stacked_view(w.layout.wq as int, c.sdim() * c.sdim(), l as int);
        assert forall|idx: int| 0 <= idx < n * d implies #[trigger] qp[idx] == projected(wq, xn, d as int, d as int, n as int)[idx] by {
            lemma_row_cell(v_x, idx, d as int, 0, n as int);
        }
        assert(qp =~= projected(wq, xn, d as int, d as int, n as int));
    }
    proof {
        lemma_separated_injective(v_kv, (kv) as int, (n) as int);
    }
    gemm(kv, d, n, one, w.wk(l), v_w, s.x1.as_slice(), v_x, None, &mut layer.k_cache, v_kv);
    proof {
        lemma_separated_injective(v_kv, (kv) as int, (n) as int);
    }
    gemm(kv, d, n, one, w.wv(l), v_w, s.x1.as_slice(), v_x, None, &mut layer.v_cache, v_kv);
    proof {
        lemma_outside_rows(v_kv, kv as int, n as int, pos as int);
        let wk = w.stacked_view(w.layout.wk as int, c.skv_dim() * c.sdim(), l as int);
        let wv = w.stacked_view(w.layout.wv as int, c.skv_dim() * c.sdim(), l as int);
        assert forall|idx: int| pos * kv <= idx < (pos + n) * kv implies layer.v_cache@[idx] == proj(
            wv,
            xn,
            d as int,
            idx % (kv as int),
            idx / (kv as int) - pos,
        ) && layer.k_cache@[idx] == proj(wk, xn, d as int, idx % (kv as int), idx / (kv as int) - pos) by {
            lemma_row_cell(v_kv, idx, kv as int, pos as int, n as int);
            let r = idx % (kv as int);
            let j = idx / (kv as int) - pos;
            assert(v_kv.at(r, j) == idx);
            assert(layer.v_cache@[v_kv.at(r, j)] == proj(wv, xn, d as int, r, j));
            assert(layer.k_cache@[v_kv.at(r, j)] == proj(wk, xn, d as int, r, j));
        }
        assert(layer.v_cache@ =~= projected_rows(v0, wv, xn, d as int, kv as int, pos as int, n as int));
    }
    let ghost kp = layer.k_cache@;
    assert(kp =~= projected_rows(k0, w.stacked_view(w.layout.wk as int, c.skv_dim() * c.sdim(), l as int), xn, d as int, kv as int, pos as int, n as int));
    let ghost vfinal = layer.v_cache@;
    assert(rows_kept(k0, layer.k_cache@, kv as int, pos as int, pos + n));
    assert(rows_kept(v0, layer.v_cache@, kv as int, pos as int, pos + n));

    // rotary embeddings of the new queries and keys
    assert(kv % 2 == 0) by {
        let hs = c.shead_size();
        assert(kv == hs * c.skv_heads());
        assert(hs == 2 * (hs / 2));
        assert(kv == 2 * ((hs / 2) * c.skv_heads())) by (nonlinear_arith)
            requires kv == hs * c.skv_heads(), hs == 2 * (hs / 2);
    }
    assert(d % 2 == 0) by {
        let hs = c.shead_size();
        assert(d == hs * c.sheads());
        assert(hs == 2 * (hs / 2));
        assert(d == 2 * ((hs / 2) * c.sheads())) by (nonlinear_arith)
            requires d == hs * c.sheads(), hs == 2 * (hs / 2);
    }
    let mut i: usize = 0;
    while i < n
        invariant
            c == w.config,
            c.wf(),
            emb.sized(c),
            d == c.sdim(),
            kv == c.skv_dim(),
            0 < kv <= d,
            i <= n,
            pos + n <= c.sseq(),
            s.sized(n as int, c),
            layer.sized(c),
            rows_kept(k0, layer.k_cache@, kv as int, pos as int, pos + n),
            v0 == old(layer).v_cache@,
            rows_kept(v0, layer.v_cache@, kv as int, pos as int, pos + n),
            layer.v_cache@ == vfinal,
            kv % 2 == 0,
            d % 2 == 0,
            emb.dim == d,
            qp.len() == n * d,
            s.x0@ == x0_in,
            s.x1@ == xn,
            forall|idx: int|
                0 <= idx < n * d ==> #[trigger] s.q@[idx] == if idx < i * d {
                    rotated(qp, emb.rotary@, (pos + idx / (d as int)) * d, idx / (d as int) * d, idx)
                } else {
                    qp[idx]
                },
            kp.len() == layer.k_cache@.len(),
            emb.rotary@.len() == c.sseq() * c.sdim(),
            forall|idx: int|
                0 <= idx < kp.len() ==> #[trigger] layer.k_cache@[idx] == if pos * kv <= idx < (pos + i) * kv {
                    rotated(kp, emb.rotary@, idx / (kv as int) * d, idx / (kv as int) * kv, idx)
                } else {
                    kp[idx]
                },
        decreases n - i,
    {
        proof {
            lemma_batch_bounds(c, n as int);
            lemma_mul_le(i as int + 1, d as int, n as int);
            lemma_mul_le((pos + i + 1) as int, kv as int, c.sseq());
            lemma_mul_le((pos + i + 1) as int, d as int, c.sseq());
            assert(i * d + d == (i + 1) * d) by (nonlinear_arith);
            assert((pos + i) * kv + kv == (pos + i + 1) * kv) by (nonlinear_arith);
            assert(pos * kv <= (pos + i) * kv) by (nonlinear_arith)
                requires kv > 0;
            assert((pos + i + 1) * kv <= (pos + n) * kv) by (nonlinear_arith)
                requires kv > 0, i < n;
            assert((pos + i) * d + d == (pos + i + 1) * d) by (nonlinear_arith);
        }
        let ghost qb = s.q@;
        emb.run_at(pos + i, &mut s.q, i * d, d);
        proof {
            assert(d / 2 * 2 == d);
            assert forall|idx: int| 0 <= idx < n * d implies #[trigger] s.q@[idx] == if idx < (i + 1) * d {
                rotated(qp, emb.rotary@, (pos + idx / (d as int)) * d, idx / (d as int) * d, idx)
            } else {
                qp[idx]
            } by {
                if i * d <= idx < (i + 1) * d {
                    assert forall|t: int| i * d <= t < i * d + d implies #[trigger] qb[t] == qp[t] by {
                        assert(t < n * d);
                        assert(qb[t] == (if t < i * d {
                            rotated(qp, emb.rotary@, (pos + t / (d as int)) * d, t / (d as int) * d, t)
                        } else {
                            qp[t]
                        }));
                    }
                    vstd::arithmetic::div_mod::lemma_fundamental_div_mod_converse(idx, d as int, i as int, idx - i * d);
                    lemma_rotated_same_row(qb, qp, emb.rotary@, (pos + i) * d, i * d, d as int, idx);
                }
            }
        }
        let ghost kb = layer.k_cache@;
        emb.run_at(pos + i, &mut layer.k_cache, (pos + i) * kv, kv);
        proof {
            assert(kv / 2 * 2 == kv);
            assert forall|idx: int| 0 <= idx < kp.len() implies #[trigger] layer.k_cache@[idx] == if pos * kv
                <= idx < (pos + i + 1) * kv {
                rotated(kp, emb.rotary@, idx / (kv as int) * d, idx / (kv as int) * kv, idx)
            } else {
                kp[idx]
            } by {
                if (pos + i) * kv <= idx < (pos + i + 1) * kv {
                    assert forall|t: int| (pos + i) * kv <= t < (pos + i) * kv + kv implies #[trigger] kb[t] == kp[t] by {
                        assert(kb[t] == (if pos * kv <= t < (pos + i) * kv {
                            rotated(kp, emb.rotary@, t / (kv as int) * d, t / (kv as int) * kv, t)
                        } else {
                            kp[t]
                        }));
                    }
                    vstd::arithmetic::div_mod::lemma_fundamental_div_mod_converse(
                        idx,
                        kv as int,
                        (pos + i) as int,
                        idx - (pos + i) * kv,
                    );
                    lemma_rotated_same_row(kb, kp, emb.rotary@, (pos + i) * d, (pos + i) * kv, kv as int, idx);
                }
            }
        }
        i = i + 1;
    }
    proof {
        assert(layer.k_cache@ =~= rotated_rows(kp, emb.rotary@, d as int, kv as int, pos as int, n as int));
        assert(s.q@ =~= rotated_queries(qp, emb.rotary@, d as int, pos as int));
    }
    let ghost qr = s.q@;
    let ghost kfinal = layer.k_cache@;

    // multi-head attention into x1
    let n_heads = c.n_heads();
    let mut h: usize = 0;
    while h < n_heads
        invariant
            c == w.config,
            c.wf(),
            h <= n_heads,
            n_heads == c.sheads(),
            pos + n <= c.sseq(),
            s.sized(n as int, c),
            layer.sized(c),
            rows_kept(k0, layer.k_cache@, kv as int, pos as int, pos + n),
            rows_kept(v0, layer.v_cache@, kv as int, pos as int, pos + n),
            kv == c.skv_dim(),
            layer.k_cache@ == kfinal,
            layer.v_cache@ == vfinal,
            s.q@ == qr,
            s.x0@ == x0_in,
            d == c.sdim(),
            hd == c.shidden(),
            n <= c.sseq(),
            forall|idx: int|
                0 <= idx < n * d ==> #[trigger] s.x1@[idx] == if (idx % (d as int)) / c.shead_size() < h {
                    attention_out(c, qr, kfinal, vfinal, pos as int, n as int)[idx]
                } else {
                    xn[idx]
                },
        decreases n_heads - h,
    {
        attend_head(c, h, layer, s, pos, n);
        h = h + 1;
    }
    let ghost xa = attention_out(c, qr, kfinal, vfinal, pos as int, n as int);
    proof {
        assert forall|idx: int| 0 <= idx < n * d implies #[trigger] s.x1@[idx] == xa[idx] by {
            let col = idx % (d as int);
            vstd::arithmetic::div_mod::lemma_fundamental_div_mod(idx, d as int);
            vstd::arithmetic::div_mod::lemma_fundamental_div_mod(col, c.shead_size());
            assert(col / c.shead_size() < c.sheads()) by (nonlinear_arith)
                requires col == c.shead_size() * (col / c.shead_size()) + col % c.shead_size(), col < d,
                    d == c.shead_size() * c.sheads(), c.shead_size() > 0, col % c.shead_size() >= 0;
        }
        assert(s.x1@ =~= xa);
    }

    // x0 += wo[l] * x1
    proof {
        lemma_separated_injective(v_x, (d) as int, (n) as int);
    }
    gemm(d, d, n, one, w.wo(l), v_w, s.x1.as_slice(), v_x, Some(one), &mut s.x0, v_x);
    let ghost x0b = s.x0@;
    proof {
        let wo = w.stacked_view(w.layout.wo as int, c.sdim() * c.sdim(), l as int);
        assert forall|idx: int| 0 <= idx < n * d implies #[trigger] x0b[idx] == residual_add(x0_in, wo, xa, d as int, d as int)[idx] by {
            lemma_row_cell(v_x, idx, d as int, 0, n as int);
        }
        assert(x0b =~= residual_add(x0_in, wo, xa, d as int, d as int));
    }

    // x1 = rmsnorm(x0, rms_ffn_weight[l])
    rmsnorm(&mut s.x1, &s.x0, w.rms_ffn_weight(l), n);
    let ghost xf = s.x1@;
    assert(xf =~= normalized(x0b, w.stacked_view(w.layout.rms_ffn as int, c.sdim(), l as int)));

    // gate, up = w1[l] * x1, w3[l] * x1; gate = silu(gate) * up
    let v_gate = Strided { offset: 0, row_stride: 1, col_stride: hd };
    let v_up = Strided { offset: n * hd, row_stride: 1, col_stride: hd };
    proof {
        lemma_mul_le(n as int, hd as int, n as int);
        lemma_rows_fit(v_w, 0, hd as int, d as int, (hd * d) as int);
        lemma_cols_fit(v_gate, 0, hd as int, n as int, s.hidden@.len() as int);
        lemma_cols_fit(v_up, (n * hd) as int, hd as int, n as int, s.hidden@.len() as int);
    }
    proof {
        lemma_separated_injective(v_gate, (hd) as int, (n) as int);
    }
    gemm(hd, d, n, one, w.w1(l), v_w, s.x1.as_slice(), v_x, None, &mut s.hidden, v_gate);
    proof {
        lemma_separated_injective(v_up, (hd) as int, (n) as int);
    }
    let ghost h_gate = s.hidden@;
    gemm(hd, d, n, one, w.w3(l), v_w, s.x1.as_slice(), v_x, None, &mut s.hidden, v_up);
    let ghost gate = projected(w.stacked_view(w.layout.w1 as int, c.shidden() * c.sdim(), l as int), xf, d as int, hd as int, n as int);
    let ghost up = projected(w.stacked_view(w.layout.w3 as int, c.shidden() * c.sdim(), l as int), xf, d as int, hd as int, n as int);
    proof {
        assert forall|idx: int| 0 <= idx < n * hd implies #[trigger] s.hidden@[idx] == gate[idx] && s.hidden@[n * hd + idx] == up[idx] by {
            lemma_row_cell(v_gate, idx, hd as int, 0, n as int);
            assert(h_gate[idx] == gate[idx]);
            assert(v_up.outside(hd as int, n as int, idx));
            vstd::arithmetic::div_mod::lemma_fundamental_div_mod(idx, hd as int);
            assert(n * hd + idx == (n + idx / (hd as int)) * hd + idx % (hd as int)) by (nonlinear_arith)
                requires idx == hd * (idx / (hd as int)) + idx % (hd as int);
            assert(n * hd <= n * hd + idx < (n + n) * hd) by (nonlinear_arith)
                requires 0 <= idx < n * hd;
            lemma_row_cell(v_up, n * hd + idx, hd as int, n as int, n as int);
            vstd::arithmetic::div_mod::lemma_fundamental_div_mod_converse(
                n * hd + idx,
                hd as int,
                n + idx / (hd as int),
                idx % (hd as int),
            );
        }
    }
    swiglu(&mut s.hidden, n * hd, n * hd);
    let ghost act = Seq::new((n * hd) as nat, |idx: int| gate[idx].mul_s(gate[idx].sigmoid_s().mul_s(up[idx])));

    // x0 += w2[l] * gate
    let v_w2 = Strided { offset: 0, row_stride: hd, col_stride: 1 };
    proof {
        assert(d * hd == hd * d) by (nonlinear_arith);
        lemma_rows_fit(v_w2, 0, d as int, hd as int, (hd * d) as int);
    }
    proof {
        lemma_separated_injective(v_x, (d) as int, (n) as int);
    }
    let ghost h_act = s.hidden@;
    gemm(d, hd, n, one, w.w2(l), v_w2, s.hidden.as_slice(), v_gate, Some(one), &mut s.x0, v_x);
    proof {
        let w2 = w.stacked_view(w.layout.w2 as int, c.shidden() * c.sdim(), l as int);
        assert forall|idx: int| 0 <= idx < n * d implies #[trigger] s.x0@[idx] == residual_add(x0b, w2, act, hd as int, d as int)[idx] by {
            lemma_row_cell(v_x, idx, d as int, 0, n as int);
            let r = idx % (d as int);
            let i2 = idx / (d as int);
            assert forall|p: int| 0 <= p < hd implies #[trigger] h_act[v_gate.at(p, i2)] == act[v_gate.at(p, i2)] by {
                assert(v_gate.at(p, i2) < n * hd) by (nonlinear_arith)
                    requires v_gate.at(p, i2) == p + i2 * hd, p < hd, i2 < n, i2 >= 0;
                assert(v_gate.at(p, i2) >= 0) by (nonlinear_arith)
                    requires v_gate.at(p, i2) == p + i2 * hd, p >= 0, i2 >= 0, hd >= 0;
            }
            lemma_dot_ext(w2, v_w2, w2, v_w2, h_act, v_gate, act, v_gate, r, i2, hd as int);
        }
        assert(s.x0@ =~= residual_add(x0b, w2, act, hd as int, d as int));
    }
}

/// What a view of `kv`-wide rows from row `pos` on, `n` rows long, leaves
/// untouched is outside rows `[pos, pos + n)`.
proof fn lemma_outside_rows(v: Strided, kv: int, n: int, pos: int)
    requires
        v.offset == pos * kv,
        v.row_stride == 1,
        v.col_stride == kv,
        kv > 0,
        n >= 0,
        pos >= 0,
    ensures
        forall|idx: int|
            (idx < pos * kv || idx >= (pos + n) * kv) ==> #[trigger] v.outside(kv, n, idx),
{
    if n > 0 {
        assert(v.last(kv, n) == pos * kv + (kv - 1) + (n - 1) * kv) by (nonlinear_arith)
            requires v.offset == pos * kv, v.row_stride == 1, v.col_stride == kv;
        assert(pos * kv + (kv - 1) + (n - 1) * kv == (pos + n) * kv - 1) by (nonlinear_arith);
    }
}

/// The view of query head `h` in the query rows.
pub open spec fn query_view(c: Config, h: int) -> Strided {
    Strided { offset: (h * c.shead_size()) as usize, row_stride: c.sdim() as usize, col_stride: 1 }
}

/// The view of key/value head `g` in a cache, one column per position.
pub open spec fn cache_view(c: Config, g: int) -> Strided {
    Strided { offset: (g * c.shead_size()) as usize, row_stride: 1, col_stride: c.skv_dim() as usize }
}

/// A vector read as a column.
pub open spec fn unit_view() -> Strided {
    Strided { offset: 0, row_stride: 1, col_stride: 1 }
}

/// The scaled score of query row `i` against cached key `t`, head `h`.
pub open spec fn score<T: Real>(c: Config, q: Seq<T>, k: Seq<T>, h: int, i: int, t: int) -> T {
    T::inv_sqrt_s(c.shead_size() as usize).mul_s(
        dot(q, query_view(c, h), k, cache_view(c, (h as int) / c.skv_mul()), i, t, c.shead_size()),
    )
}

/// The attention weights of query row `i` (at position `pos + i`), head
/// `h`: the softmax of its scores over the causally valid keys `0..=pos + i`.
pub open spec fn weights_row<T: Real>(c: Config, q: Seq<T>, k: Seq<T>, pos: int, h: int, i: int) -> Seq<T> {
    let valid = pos + i + 1;
    let scores = Seq::new(valid as nat, |t: int| score(c, q, k, h, i, t));
    Seq::new(valid as nat, |t: int| softmax_at(scores, 0, valid, t))
}

/// The attention output: element `(i, h * head_size + r)` is the weighted
/// sum of the valid cached values of head `h`'s key/value head.
pub open spec fn attention_out<T: Real>(c: Config, q: Seq<T>, k: Seq<T>, v: Seq<T>, pos: int, n: int) -> Seq<T> {
    let d = c.sdim();
    let hs = c.shead_size();
    Seq::new(
        (n * d) as nat,
        |idx: int|
            {
                let i = idx / d;
                let h = (idx % d) / hs;
                T::one_s().mul_s(
                    dot(v, cache_view(c, (h as int) / c.skv_mul()), weights_row(c, q, k, pos, h, i), unit_view(), (idx % d) % hs, 0, pos + i + 1),
                )
            },
    )
}

/// `dot` reads only the cells of its two views.
pub proof fn lemma_dot_ext<T: Real>(
    a1: Seq<T>,
    va1: Strided,
    a2: Seq<T>,
    va2: Strided,
    b1: Seq<T>,
    vb1: Strided,
    b2: Seq<T>,
    vb2: Strided,
    i: int,
    j: int,
    k: int,
)
    requires
        forall|p: int| 0 <= p < k ==> #[trigger] a1[va1.at(i, p)] == a2[va2.at(i, p)],
        forall|p: int| 0 <= p < k ==> #[trigger] b1[vb1.at(p, j)] == b2[vb2.at(p, j)],
    ensures
        dot(a1, va1, b1, vb1, i, j, k) == dot(a2, va2, b2, vb2, i, j, k),
    decreases k,
{
    if k > 0 {
        lemma_dot_ext(a1, va1, a2, va2, b1, vb1, b2, vb2, i, j, k - 1);
        assert(a1[va1.at(i, k - 1)] == a2[va2.at(i, k - 1)]);
        assert(b1[vb1.at(k - 1, j)] == b2[vb2.at(k - 1, j)]);
    }
}

proof fn lemma_max_ext<T: Real>(x: Seq<T>, start: int, y: Seq<T>, j: int)
    requires
        forall|u: int| 0 <= u < j ==> #[trigger] x[start + u] == y[u],
        j >= 1,
    ensures
        prefix_max(x, start, j) == prefix_max(y, 0, j),
    decreases j,
{
    assert(x[start + 0] == y[0]);
    if j > 1 {
        lemma_max_ext(x, start, y, j - 1);
        assert(x[start + (j - 1)] == y[j - 1]);
        assert(y[0 + j - 1] == y[j - 1]);
    }
}

proof fn lemma_exp_sum_ext<T: Real>(x: Seq<T>, start: int, y: Seq<T>, mx: T, j: int)
    requires
        forall|u: int| 0 <= u < j ==> #[trigger] x[start + u] == y[u],
    ensures
        exp_sum(x, start, mx, j) == exp_sum(y, 0, mx, j),
    decreases j,
{
    if j > 0 {
        lemma_exp_sum_ext(x, start, y, mx, j - 1);
        assert(x[start + (j - 1)] == y[j - 1]);
        assert(y[0 + j - 1] == y[j - 1]);
    }
}

/// The softmax of a row read in place equals that of the row on its own.
pub proof fn lemma_softmax_ext<T: Real>(x: Seq<T>, start: int, y: Seq<T>, valid: int, t: int)
    requires
        forall|u: int| 0 <= u < valid ==> #[trigger] x[start + u] == y[u],
        0 <= t < valid,
    ensures
        softmax_at(x, start, valid, start + t) == softmax_at(y, 0, valid, t),
{
    lemma_max_ext(x, start, y, valid);
    lemma_exp_sum_ext(x, start, y, prefix_max(x, start, valid), valid);
    assert(x[start + t] == y[t]);
}

/// Attention of head `h` for the batch: scores against all cached keys of
/// its key/value head, a causal softmax per row, and each row's weighted sum
/// of its valid cached values written to the head's columns of `s.x1`.
fn attend_head<T: Real>(c: Config, h: usize, layer: &Layer<T>, s: &mut RunState<T>, pos: usize, n: usize)
    requires
        c.wf(),
        h < c.sheads(),
        layer.sized(c),
        old(s).sized(n as int, c),
        pos + n <= c.sseq(),
    ensures
        final(s).sized(n as int, c),
        final(s).x0@ == old(s).x0@,
        final(s).q@ == old(s).q@,
        final(s).hidden@ == old(s).hidden@,
        forall|idx: int|
            0 <= idx < n * c.sdim() ==> #[trigger] final(s).x1@[idx] == if (idx % c.sdim()) / c.shead_size() == h {
                attention_out(c, old(s).q@, layer.k_cache@, layer.v_cache@, pos as int, n as int)[idx]
            } else {
                old(s).x1@[idx]
            },
{
    proof {
        lemma_kv_dim_bounds(c);
        lemma_batch_bounds(c, n as int);
    }
    let ghost q = s.q@;
    let ghost x1_0 = s.x1@;
    let ghost out = attention_out(c, q, layer.k_cache@, layer.v_cache@, pos as int, n as int);
    let d = c.dim();
    let kv = c.kv_dim();
    let seq = c.seq_len();
    let n_heads = c.n_heads();
    let head_size = d / n_heads;
    let kv_mul = n_heads / c.n_kv_heads();
    let g = h / kv_mul;
    let att_len = pos + n;
    let ghost hs = head_size as int;
    proof {
        assert(h * hs + hs <= d) by (nonlinear_arith)
            requires h < n_heads, d == hs * n_heads, hs > 0;
        assert(g < c.skv_heads()) by {
            let km = kv_mul as int;
            let hh = h as int;
            let gg = g as int;
            let nh = n_heads as int;
            let rem = hh % km;
            vstd::arithmetic::div_mod::lemma_fundamental_div_mod(hh, km);
            assert(km * c.skv_heads() == nh) by (nonlinear_arith)
                requires c.skv_mul() * c.skv_heads() == c.sheads(), km == c.skv_mul(), nh == c.sheads();
            assert(gg < c.skv_heads()) by (nonlinear_arith)
                requires hh == km * gg + rem, 0 <= rem, hh < nh, km * c.skv_heads() == nh, km > 0;
        }
        assert(g * hs + hs <= kv) by (nonlinear_arith)
            requires g < c.skv_heads(), kv == hs * c.skv_heads(), hs > 0, g >= 0;
        lemma_mul_le(h as int, n as int * seq as int, n_heads as int);
        lemma_mul_le(att_len as int, kv as int, seq as int);
        lemma_mul_le(n as int, seq as int, n as int);
        assert(h * (n * seq) + n * seq <= n_heads * (n * seq)) by (nonlinear_arith)
            requires h < n_heads, n * seq >= 0;
    }
    let att_base = h * (n * seq);
    let v_q = Strided { offset: h * head_size, row_stride: d, col_stride: 1 };
    let v_k = Strided { offset: g * head_size, row_stride: 1, col_stride: kv };
    let v_att = Strided { offset: att_base, row_stride: seq, col_stride: 1 };
    proof {
        assert(v_q == query_view(c, h as int));
        assert(v_k == cache_view(c, (h as int) / c.skv_mul()));
        lemma_rows_fit(v_q, 0, n as int, hs, s.q@.len() as int);
        lemma_cols_fit(v_k, 0, hs, att_len as int, layer.k_cache@.len() as int);
        lemma_rows_fit(v_att, att_base as int, n as int, att_len as int, s.attention@.len() as int);
        lemma_separated_injective(v_att, n as int, att_len as int);
    }
    // att = q_h * k_g / sqrt(head_size)
    gemm(n, head_size, att_len, T::inv_sqrt(head_size), s.q.as_slice(), v_q, layer.k_cache.as_slice(), v_k, None, &mut s.attention, v_att);
    let ghost scored = s.attention@;

    // causal softmax per row; columns past the row's position are zeroed
    let zero = T::zero();
    let mut i: usize = 0;
    while i < n
        invariant
            i <= n,
            att_len == pos + n,
            att_len <= seq,
            seq == c.sseq(),
            att_base + n * seq <= s.attention@.len(),
            s.sized(n as int, c),
            c.wf(),
            n <= c.sseq(),
            s.x0@ == old(s).x0@ && s.q@ == q && s.hidden@ == old(s).hidden@ && s.x1@ == x1_0,
            scored.len() == s.attention@.len(),
            v_att == (Strided { offset: att_base, row_stride: seq, col_stride: 1 }),
            forall|i2: int, t: int|
                i <= i2 < n && 0 <= t < att_len ==> #[trigger] s.attention@[v_att.at(i2, t)] == scored[v_att.at(i2, t)],
            forall|i2: int, t: int|
                0 <= i2 < i && 0 <= t < pos + i2 + 1 ==> #[trigger] s.attention@[v_att.at(i2, t)] == softmax_at(
                    scored,
                    v_att.at(i2, 0),
                    pos + i2 + 1,
                    v_att.at(i2, t),
                ),
        decreases n - i,
    {
        proof {
            lemma_batch_bounds(c, n as int);
            lemma_mul_le(i as int + 1, seq as int, n as int);
            assert(i * seq + seq == (i + 1) * seq) by (nonlinear_arith);
        }
        let ghost before = s.attention@;
        let start = att_base + i * seq;
        causal_softmax(&mut s.attention, start, pos + i + 1, att_len, zero);
        proof {
            assert forall|i2: int, t: int| i + 1 <= i2 < n && 0 <= t < att_len implies #[trigger] s.attention@[v_att.at(
                i2,
                t,
            )] == scored[v_att.at(i2, t)] by {
                assert(v_att.at(i2, t) >= start + seq) by (nonlinear_arith)
                    requires i2 >= i + 1, v_att.at(i2, t) == att_base + i2 * seq + t, start == att_base + i * seq, t >= 0, seq >= 0;
                assert(v_att.at(i2, t) < att_base + n * seq) by (nonlinear_arith)
                    requires i2 < n, v_att.at(i2, t) == att_base + i2 * seq + t, t < seq;
            }
            assert forall|i2: int, t: int| 0 <= i2 < i + 1 && 0 <= t < pos + i2 + 1 implies #[trigger] s.attention@[v_att.at(
                i2,
                t,
            )] == softmax_at(scored, v_att.at(i2, 0), pos + i2 + 1, v_att.at(i2, t)) by {
                if i2 < i {
                    assert(v_att.at(i2, t) < start) by (nonlinear_arith)
                        requires i2 < i, v_att.at(i2, t) == att_base + i2 * seq + t, start == att_base + i * seq, t < seq;
                    assert(v_att.at(i2, t) >= 0) by (nonlinear_arith)
                        requires i2 >= 0, v_att.at(i2, t) == att_base + i2 * seq + t, t >= 0, seq >= 0, att_base >= 0;
                } else {
                    assert forall|u: int| 0 <= u < pos + i + 1 implies #[trigger] before[start + u] == scored[start + u] by {
                        assert(v_att.at(i as int, u) == start + u);
                    }
                    assert(softmax_at(before, start as int, pos + i + 1, start + t) == softmax_at(
                        scored,
                        start as int,
                        pos + i + 1,
                        start + t,
                    )) by {
                        let row = Seq::new((pos + i + 1) as nat, |u: int| scored[start + u]);
                        assert forall|u: int| 0 <= u < pos + i + 1 implies #[trigger] before[start + u] == row[u] by {}
                        assert forall|u: int| 0 <= u < pos + i + 1 implies #[trigger] scored[start + u] == row[u] by {}
                        lemma_softmax_ext(before, start as int, row, pos + i + 1, t);
                        lemma_softmax_ext(scored, start as int, row, pos + i + 1, t);
                    }
                    assert(v_att.at(i2, t) == start + t);
                    assert(v_att.at(i2, 0) == start);
                }
            }
        }
        i = i + 1;
    }

    // x1 row i, head h = att row i * v_g, over the causally valid rows only
    let one = T::one();
    let mut i: usize = 0;
    while i < n
        invariant
            i <= n,
            att_len == pos + n,
            att_len <= seq,
            seq == c.sseq(),
            c.wf(),
            n <= c.sseq(),
            d == c.sdim(),
            kv == c.skv_dim(),
            h * hs + hs <= d,
            hs == head_size,
            hs == c.shead_size(),
            g == (h as int) / c.skv_mul(),
            one == T::one_s(),
            hs > 0,
            g * hs + hs <= kv,
            layer.sized(c),
            s.sized(n as int, c),
            att_base + n * seq <= s.attention@.len(),
            s.x0@ == old(s).x0@ && s.q@ == q && s.hidden@ == old(s).hidden@,
            out == attention_out(c, q, layer.k_cache@, layer.v_cache@, pos as int, n as int),
            v_att == (Strided { offset: att_base, row_stride: seq, col_stride: 1 }),
            forall|i2: int, t: int|
                0 <= i2 < n && 0 <= t < pos + i2 + 1 ==> #[trigger] s.attention@[v_att.at(i2, t)] == softmax_at(
                    scored,
                    v_att.at(i2, 0),
                    pos + i2 + 1,
                    v_att.at(i2, t),
                ),
            forall|i2: int, t: int|
                0 <= i2 < n && 0 <= t < att_len ==> #[trigger] scored[v_att.at(i2, t)] == score(
                    c,
                    q,
                    layer.k_cache@,
                    h as int,
                    i2,
                    t,
                ),
            forall|idx: int|
                0 <= idx < n * d ==> #[trigger] s.x1@[idx] == if idx / (d as int) < i && (idx % (d as int)) / hs == h {
                    out[idx]
                } else {
                    x1_0[idx]
                },
        decreases n - i,
    {
        let valid = pos + i + 1;
        proof {
            lemma_batch_bounds(c, n as int);
            lemma_mul_le(i as int + 1, seq as int, n as int);
            lemma_mul_le(i as int + 1, d as int, n as int);
            assert(i * seq + seq == (i + 1) * seq) by (nonlinear_arith);
            assert(i * d + d == (i + 1) * d) by (nonlinear_arith);
        }
        let v_v = Strided { offset: g * head_size, row_stride: 1, col_stride: kv };
        let v_p = Strided { offset: att_base + i * seq, row_stride: 1, col_stride: seq };
        let v_o = Strided { offset: i * d + h * head_size, row_stride: 1, col_stride: d };
        proof {
            lemma_mul_le(valid as int, kv as int, seq as int);
            lemma_cols_fit(v_v, 0, hs, valid as int, layer.v_cache@.len() as int);
            lemma_cols_fit(v_p, att_base + i * seq, valid as int, 1, s.attention@.len() as int);
            lemma_cols_fit(v_o, i * d, hs, 1, s.x1@.len() as int);
            lemma_separated_injective(v_o, head_size as int, 1);
        }
        let ghost x1_before = s.x1@;
        let ghost x1_before_att = s.attention@;
        gemm(head_size, valid, 1, one, layer.v_cache.as_slice(), v_v, s.attention.as_slice(), v_p, None, &mut s.x1, v_o);
        proof {
            let wrow = weights_row(c, q, layer.k_cache@, pos as int, h as int, i as int);
            let start = att_base + i * seq;
            assert forall|t: int| 0 <= t < valid implies #[trigger] x1_before_att[v_p.at(t, 0)] == wrow[unit_view().at(t, 0)] by {
                assert(v_p.at(t, 0) == v_att.at(i as int, t));
                assert(v_att.at(i as int, 0) == start);
                let scores = Seq::new(valid as nat, |u: int| score(c, q, layer.k_cache@, h as int, i as int, u));
                assert forall|u: int| 0 <= u < valid implies #[trigger] scored[start + u] == scores[u] by {
                    assert(v_att.at(i as int, u) == start + u);
                }
                lemma_softmax_ext(scored, start as int, scores, valid as int, t);
                assert(unit_view().at(t, 0) == t);
            }
            assert forall|idx: int| 0 <= idx < n * d implies #[trigger] s.x1@[idx] == if idx / (d as int) < i + 1 && (idx % (d as int)) / hs == h {
                out[idx]
            } else {
                x1_0[idx]
            } by {
                vstd::arithmetic::div_mod::lemma_fundamental_div_mod(idx, d as int);
                let row = idx / (d as int);
                let col = idx % (d as int);
                if row == i && col / hs == h {
                    let r = col % hs;
                    vstd::arithmetic::div_mod::lemma_fundamental_div_mod(col, hs);
                    assert(col == h * hs + r) by (nonlinear_arith)
                        requires col == hs * (col / hs) + col % hs, col / hs == h, r == col % hs;
                    assert(v_o.at(r, 0) == idx) by (nonlinear_arith)
                        requires idx == d * row + col, row == i, col == h * hs + r, v_o.offset == i * d + h * head_size, v_o.row_stride == 1, hs == head_size;
                    lemma_dot_ext(
                        layer.v_cache@,
                        v_v,
                        layer.v_cache@,
                        v_v,
                        x1_before_att,
                        v_p,
                        weights_row(c, q, layer.k_cache@, pos as int, h as int, i as int),
                        unit_view(),
                        r,
                        0,
                        valid as int,
                    );
                    assert(v_v == cache_view(c, (h as int) / c.skv_mul()));
                    assert(s.x1@[v_o.at(r, 0)] == out[idx]);
                } else {
                    if v_o.is_cell(head_size as int, 1, idx) {
                        let (r, j) = choose|r: int, j: int| 0 <= r < head_size && 0 <= j < 1 && #[trigger] v_o.at(r, j) == idx;
                        assert(idx == i * d + h * hs + r) by (nonlinear_arith)
                            requires v_o.at(r, j) == idx, j == 0, v_o.offset == i * d + h * head_size, v_o.row_stride == 1, hs == head_size;
                        assert(idx == d * i + (h * hs + r)) by (nonlinear_arith)
                            requires idx == i * d + h * hs + r;
                        assert(h * hs + r < d);
                        vstd::arithmetic::div_mod::lemma_fundamental_div_mod_converse(idx, d as int, i as int, h * hs + r);
                        vstd::arithmetic::div_mod::lemma_fundamental_div_mod_converse(h * hs + r, hs, h as int, r);
                    }
                    assert(s.x1@[idx] == x1_before[idx]);
                }
            }
        }
        i = i + 1;
    }
    proof {
        assert forall|idx: int| 0 <= idx < n * d implies #[trigger] s.x1@[idx] == if (idx % (d as int)) / hs == h {
            out[idx]
        } else {
            x1_0[idx]
        } by {
            vstd::arithmetic::div_mod::lemma_fundamental_div_mod(idx, d as int);
            assert(idx / (d as int) < n) by (nonlinear_arith)
                requires idx == d * (idx / (d as int)) + idx % (d as int), 0 <= idx % (d as int), idx < n * d, d > 0;
        }
    }
}

} // verus!
