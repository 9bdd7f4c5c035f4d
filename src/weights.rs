use vstd::prelude::*;
use crate::config::{Config, ConfigError, lemma_kv_dim_bounds};
use crate::layout::{dense_offsets, DenseLayout};

verus! {

/// All weights of a model in one flat buffer, laid out as the dense
/// checkpoint stores them after its header.
pub struct Weights<T> {
    pub config: Config,
    pub layout: DenseLayout,
    pub data: Vec<T>,
}

/// `index * width + width <= count * width` for an index below `count`.
pub proof fn lemma_stack(index: int, count: int, width: int)
    requires
        0 <= index < count,
        width >= 0,
    ensures
        0 <= index * width,
        index * width + width <= count * width,
{
    assert(index * width + width <= count * width) by (nonlinear_arith)
        requires index < count, width >= 0;
    assert(0 <= index * width) by (nonlinear_arith)
        requires index >= 0, width >= 0;
}

impl<T> Weights<T> {
    pub open spec fn wf(&self) -> bool {
        &&& self.config.wf()
        &&& self.layout@ == dense_offsets(self.config)
        &&& self.data@.len() == self.config.dense_len()
    }

    /// Elements `[base + index * width, base + index * width + width)`.
    pub open spec fn stacked_view(&self, base: int, width: int, index: int) -> Seq<T> {
        self.data@.subrange(base + index * width, base + index * width + width)
    }

    pub open spec fn token_table_view(&self) -> Seq<T> {
        self.data@.subrange(0, self.config.svocab() * self.config.sdim())
    }

    pub open spec fn wcls_view(&self) -> Seq<T> {
        self.data@.subrange(self.layout.wcls_start as int, self.layout.wcls_end as int)
    }

    /// Takes the weights of `config` from `data`, which must hold exactly
    /// the dense layout's number of elements.
    pub fn new(config: Config, data: Vec<T>) -> (r: Result<Weights<T>, ConfigError>)
        requires
            config.wf(),
        ensures
            data@.len() == config.dense_len() ==> (r matches Ok(w) && w.wf() && w.config == config
                && w.data@ == data@),
            data@.len() != config.dense_len() ==> r == Err::<Weights<T>, ConfigError>(
                ConfigError::SizeMismatch { expected: config.dense_len() as usize, found: data@.len() as usize },
            ),
    {
        let layout = match DenseLayout::new(&config) {
            Some(l) => l,
            None => {
                return Err(ConfigError::TooLarge);
            },
        };
        if data.len() != layout.end {
            return Err(ConfigError::SizeMismatch { expected: layout.end, found: data.len() });
        }
        Ok(Weights { config, layout, data })
    }

    fn stacked(&self, base: usize, width: usize, index: usize) -> (r: &[T])
        requires
            base + index * width + width <= self.data@.len(),
            0 <= index * width,
        ensures
            r@ == self.stacked_view(base as int, width as int, index as int),
    {
        let _ = self.data.len();
        let start = base + index * width;
        &self.data.as_slice()[start..start + width]
    }

    /// The embedding row of `token`: `dim` elements.
    pub fn token_embedding_table(&self, token: u32) -> (r: &[T])
        requires
            self.wf(),
            (token as int) < self.config.svocab(),
        ensures
            r@ == self.stacked_view(0, self.config.sdim(), token as int),
            r@.len() == self.config.sdim(),
    {
        let d = self.config.dim();
        proof {
            lemma_stack(token as int, self.config.svocab(), d as int);
        }
        self.stacked(0, d, token as usize)
    }

    /// The whole token embedding table: `vocab_size * dim` elements.
    pub fn token_embeddings(&self) -> (r: &[T])
        requires
            self.wf(),
        ensures
            r@ == self.token_table_view(),
    {
        &self.data.as_slice()[0..self.layout.rms_att]
    }

    /// RMSNorm weight before attention in `layer`: `dim` elements.
    pub fn rms_att_weight(&self, layer: usize) -> (r: &[T])
        requires
            self.wf(),
            layer < self.config.slayers(),
        ensures
            r@ == self.stacked_view(self.layout.rms_att as int, self.config.sdim(), layer as int),
            r@.len() == self.config.sdim(),
    {
        let d = self.config.dim();
        proof {
            lemma_stack(layer as int, self.config.slayers(), d as int);
            assert(self.config.slayers() * d == d * self.config.slayers()) by (nonlinear_arith);
        }
        self.stacked(self.layout.rms_att, d, layer)
    }

    /// RMSNorm weight before the feed-forward block in `layer`: `dim` elements.
    pub fn rms_ffn_weight(&self, layer: usize) -> (r: &[T])
        requires
            self.wf(),
            layer < self.config.slayers(),
        ensures
            r@ == self.stacked_view(self.layout.rms_ffn as int, self.config.sdim(), layer as int),
            r@.len() == self.config.sdim(),
    {
        let d = self.config.dim();
        proof {
            lemma_stack(layer as int, self.config.slayers(), d as int);
        }
        self.stacked(self.layout.rms_ffn, d, layer)
    }

    /// Query projection of `layer`: `dim x dim`, row-major.
    pub fn wq(&self, layer: usize) -> (r: &[T])
        requires
            self.wf(),
            layer < self.config.slayers(),
        ensures
            r@ == self.stacked_view(
                self.layout.wq as int,
                self.config.sdim() * self.config.sdim(),
                layer as int,
            ),
            r@.len() == self.config.sdim() * self.config.sdim(),
    {
        let c = self.config;
        let d = c.dim();
        proof {
            lemma_square(c);
            lemma_stack(layer as int, c.slayers(), d * d);
        }
        self.stacked(self.layout.wq, d * d, layer)
    }

    /// Key projection of `layer`: `kv_dim x dim`, row-major.
    pub fn wk(&self, layer: usize) -> (r: &[T])
        requires
            self.wf(),
            layer < self.config.slayers(),
        ensures
            r@ == self.stacked_view(
                self.layout.wk as int,
                self.config.skv_dim() * self.config.sdim(),
                layer as int,
            ),
            r@.len() == self.config.skv_dim() * self.config.sdim(),
    {
        let c = self.config;
        proof {
            lemma_kv_block(c);
            lemma_stack(layer as int, c.slayers(), c.skv_dim() * c.sdim());
        }
        self.stacked(self.layout.wk, c.kv_dim() * c.dim(), layer)
    }

    /// Value projection of `layer`: `kv_dim x dim`, row-major.
    pub fn wv(&self, layer: usize) -> (r: &[T])
        requires
            self.wf(),
            layer < self.config.slayers(),
        ensures
            r@ == self.stacked_view(
                self.layout.wv as int,
                self.config.skv_dim() * self.config.sdim(),
                layer as int,
            ),
            r@.len() == self.config.skv_dim() * self.config.sdim(),
    {
        let c = self.config;
        proof {
            lemma_kv_block(c);
            lemma_stack(layer as int, c.slayers(), c.skv_dim() * c.sdim());
        }
        self.stacked(self.layout.wv, c.kv_dim() * c.dim(), layer)
    }

    /// Output projection of `layer`: `dim x dim`, row-major.
    pub fn wo(&self, layer: usize) -> (r: &[T])
        requires
            self.wf(),
            layer < self.config.slayers(),
        ensures
            r@ == self.stacked_view(
                self.layout.wo as int,
                self.config.sdim() * self.config.sdim(),
                layer as int,
            ),
            r@.len() == self.config.sdim() * self.config.sdim(),
    {
        let c = self.config;
        let d = c.dim();
        proof {
            lemma_square(c);
            lemma_stack(layer as int, c.slayers(), d * d);
        }
        self.stacked(self.layout.wo, d * d, layer)
    }

    /// Gate projection of `layer`: `hidden_dim x dim`, row-major.
    pub fn w1(&self, layer: usize) -> (r: &[T])
        requires
            self.wf(),
            layer < self.config.slayers(),
        ensures
            r@ == self.stacked_view(
                self.layout.w1 as int,
                self.config.shidden() * self.config.sdim(),
                layer as int,
            ),
            r@.len() == self.config.shidden() * self.config.sdim(),
    {
        let c = self.config;
        proof {
            lemma_ffn_block(c);
            lemma_stack(layer as int, c.slayers(), c.shidden() * c.sdim());
        }
        self.stacked(self.layout.w1, c.hidden_dim() * c.dim(), layer)
    }

    /// Down projection of `layer`: `dim x hidden_dim`, row-major.
    pub fn w2(&self, layer: usize) -> (r: &[T])
        requires
            self.wf(),
            layer < self.config.slayers(),
        ensures
            r@ == self.stacked_view(
                self.layout.w2 as int,
                self.config.shidden() * self.config.sdim(),
                layer as int,
            ),
            r@.len() == self.config.shidden() * self.config.sdim(),
    {
        let c = self.config;
        proof {
            lemma_ffn_block(c);
            lemma_stack(layer as int, c.slayers(), c.shidden() * c.sdim());
        }
        self.stacked(self.layout.w2, c.hidden_dim() * c.dim(), layer)
    }

    /// Up projection of `layer`: `hidden_dim x dim`, row-major.
    pub fn w3(&self, layer: usize) -> (r: &[T])
        requires
            self.wf(),
            layer < self.config.slayers(),
        ensures
            r@ == self.stacked_view(
                self.layout.w3 as int,
                self.config.shidden() * self.config.sdim(),
                layer as int,
            ),
            r@.len() == self.config.shidden() * self.config.sdim(),
    {
        let c = self.config;
        proof {
            lemma_ffn_block(c);
            lemma_stack(layer as int, c.slayers(), c.shidden() * c.sdim());
        }
        self.stacked(self.layout.w3, c.hidden_dim() * c.dim(), layer)
    }

    /// Final RMSNorm weight: `dim` elements.
    pub fn rms_final_weight(&self) -> (r: &[T])
        requires
            self.wf(),
        ensures
            r@ == self.data@.subrange(
                self.layout.rms_final as int,
                self.layout.rms_final + self.config.sdim(),
            ),
            r@.len() == self.config.sdim(),
    {
        &self.data.as_slice()[self.layout.rms_final..self.layout.freq]
    }

    /// The classifier: `vocab_size x dim`, row-major. When the weights are
    /// shared this is the token embedding table itself.
    pub fn wcls(&self) -> (r: &[T])
        requires
            self.wf(),
        ensures
            r@ == self.wcls_view(),
            r@.len() == self.config.svocab() * self.config.sdim(),
    {
        proof {
            lemma_kv_dim_bounds(self.config);
        }
        &self.data.as_slice()[self.layout.wcls_start..self.layout.wcls_end]
    }
}

/// With the shared-weight flag set, the classifier is exactly the token
/// embedding table: the same elements of the same buffer, not a copy.
pub proof fn lemma_shared_classifier<T>(w: &Weights<T>)
    requires
        w.wf(),
        w.config.shared(),
    ensures
        w.layout.wcls_start == 0,
        w.layout.wcls_end == w.layout.rms_att,
        w.wcls_view() == w.token_table_view(),
{
}

proof fn lemma_square(c: Config)
    requires
        c.wf(),
    ensures
        c.slayers() * (c.sdim() * c.sdim()) == c.slayers() * c.sdim() * c.sdim(),
        c.sdim() * c.sdim() >= 0,
{
    assert(c.slayers() * (c.sdim() * c.sdim()) == c.slayers() * c.sdim() * c.sdim())
        by (nonlinear_arith);
    assert(c.sdim() * c.sdim() >= 0) by (nonlinear_arith);
}

proof fn lemma_kv_block(c: Config)
    requires
        c.wf(),
    ensures
        c.slayers() * (c.skv_dim() * c.sdim()) == c.slayers() * c.sdim() * c.skv_dim(),
        c.skv_dim() * c.sdim() >= 0,
{
    lemma_kv_dim_bounds(c);
    assert(c.slayers() * (c.skv_dim() * c.sdim()) == c.slayers() * c.sdim() * c.skv_dim())
        by (nonlinear_arith);
    assert(c.skv_dim() * c.sdim() >= 0) by (nonlinear_arith)
        requires c.skv_dim() > 0, c.sdim() > 0;
}

proof fn lemma_ffn_block(c: Config)
    requires
        c.wf(),
    ensures
        c.slayers() * (c.shidden() * c.sdim()) == c.slayers() * c.sdim() * c.shidden(),
        c.slayers() * (c.shidden() * c.sdim()) == c.slayers() * c.shidden() * c.sdim(),
        c.shidden() * c.sdim() >= 0,
{
    assert(c.slayers() * (c.shidden() * c.sdim()) == c.slayers() * c.sdim() * c.shidden())
        by (nonlinear_arith);
    assert(c.slayers() * (c.shidden() * c.sdim()) == c.slayers() * c.shidden() * c.sdim())
        by (nonlinear_arith);
    assert(c.shidden() * c.sdim() >= 0) by (nonlinear_arith)
        requires c.shidden() > 0, c.sdim() > 0;
}

} // verus!
