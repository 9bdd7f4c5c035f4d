use vstd::prelude::*;
use crate::layout::{bounded_product, dense_offsets, DenseLayout};

verus! {

/// Upper bound on the number of elements of any buffer the engine allocates.
pub const SIZE_LIMIT: usize = usize::MAX / 16;

/// Model hyperparameters, in the order the dense checkpoint header stores them.
///
/// The vocabulary size carries a sign: a positive value means the classifier
/// shares its weights with the token embedding table.
#[derive(Clone, Copy, Debug, PartialEq, Eq, Structural)]
pub struct Config {
    pub dim: i32,
    pub hidden_dim: i32,
    pub n_layers: i32,
    pub n_heads: i32,
    pub n_kv_heads: i32,
    pub vocab_size: i32,
    pub seq_len: i32,
}

/// Why a set of hyperparameters, or a weight blob, was rejected.
#[derive(Clone, Copy, Debug, PartialEq, Eq, Structural)]
pub enum ConfigError {
    /// The header is shorter than seven 32-bit integers.
    Truncated,
    /// A dimension, count or length is zero or negative.
    NonPositive,
    /// `n_heads` is not a multiple of `n_kv_heads`.
    HeadsNotDivisible,
    /// `dim` is not a multiple of `n_heads`.
    DimNotDivisible,
    /// The head size is odd, so coordinates cannot be paired for rotation.
    OddHeadSize,
    /// Some buffer the model needs would exceed `SIZE_LIMIT` elements.
    TooLarge,
    /// The weight data does not hold as many elements as the shapes require.
    SizeMismatch { expected: usize, found: usize },
}

pub open spec fn abs_int(v: int) -> int {
    if v < 0 { -v } else { v }
}

impl Config {
    pub open spec fn sdim(self) -> int { self.dim as int }
    pub open spec fn shidden(self) -> int { self.hidden_dim as int }
    pub open spec fn slayers(self) -> int { self.n_layers as int }
    pub open spec fn sheads(self) -> int { self.n_heads as int }
    pub open spec fn skv_heads(self) -> int { self.n_kv_heads as int }
    pub open spec fn svocab(self) -> int { abs_int(self.vocab_size as int) }
    pub open spec fn sseq(self) -> int { self.seq_len as int }

    pub open spec fn shead_size(self) -> int { self.sdim() / self.sheads() }

    pub open spec fn skv_dim(self) -> int { self.sdim() * self.skv_heads() / self.sheads() }

    pub open spec fn skv_mul(self) -> int { self.sheads() / self.skv_heads() }

    pub open spec fn shared(self) -> bool { self.vocab_size > 0 }

    /// Every field that counts something is positive (the vocabulary size
    /// only non-zero).
    pub open spec fn positive(self) -> bool {
        &&& self.dim > 0
        &&& self.hidden_dim > 0
        &&& self.n_layers > 0
        &&& self.n_heads > 0
        &&& self.n_kv_heads > 0
        &&& self.vocab_size != 0
        &&& self.seq_len > 0
    }

    /// The head layout is consistent: heads split `dim` evenly into an even
    /// head size, and key/value heads are shared by equal groups of query heads.
    pub open spec fn heads_ok(self) -> bool {
        &&& self.sheads() % self.skv_heads() == 0
        &&& self.sdim() % self.sheads() == 0
        &&& self.shead_size() % 2 == 0
    }

    /// Number of elements of the dense weight blob that follows the header.
    pub open spec fn dense_len(self) -> int {
        dense_offsets(self).end
    }

    /// The buffers that one call of the engine allocates, for a batch of up
    /// to `seq_len` tokens, and the caches.
    pub open spec fn buffers_fit(self) -> bool {
        &&& self.sseq() * self.sdim() <= SIZE_LIMIT
        &&& self.sseq() * self.shidden() * 2 <= SIZE_LIMIT
        &&& self.sheads() * self.sseq() * self.sseq() <= SIZE_LIMIT
        &&& self.slayers() * self.sseq() * self.skv_dim() <= SIZE_LIMIT
        &&& self.dense_len() <= SIZE_LIMIT
    }

    pub open spec fn wf(self) -> bool {
        &&& self.positive()
        &&& self.heads_ok()
        &&& self.buffers_fit()
    }

    /// The first check that fails, in the order `new` makes them.
    pub open spec fn first_error(self) -> ConfigError {
        if !self.positive() {
            ConfigError::NonPositive
        } else if self.sheads() % self.skv_heads() != 0 {
            ConfigError::HeadsNotDivisible
        } else if self.sdim() % self.sheads() != 0 {
            ConfigError::DimNotDivisible
        } else if self.shead_size() % 2 != 0 {
            ConfigError::OddHeadSize
        } else {
            ConfigError::TooLarge
        }
    }

    /// Checks the hyperparameters and builds a configuration from them.
    pub fn new(
        dim: i32,
        hidden_dim: i32,
        n_layers: i32,
        n_heads: i32,
        n_kv_heads: i32,
        vocab_size: i32,
        seq_len: i32,
    ) -> (r: Result<Config, ConfigError>)
        ensures
            ({
                let c = Config { dim, hidden_dim, n_layers, n_heads, n_kv_heads, vocab_size, seq_len };
                &&& c.wf() ==> r == Ok::<Config, ConfigError>(c)
                &&& !c.wf() ==> r == Err::<Config, ConfigError>(c.first_error())
            }),
    {
        let c = Config { dim, hidden_dim, n_layers, n_heads, n_kv_heads, vocab_size, seq_len };
        if !(dim > 0 && hidden_dim > 0 && n_layers > 0 && n_heads > 0 && n_kv_heads > 0
            && vocab_size != 0 && seq_len > 0) {
            return Err(ConfigError::NonPositive);
        }
        if n_heads % n_kv_heads != 0 {
            return Err(ConfigError::HeadsNotDivisible);
        }
        if dim % n_heads != 0 {
            return Err(ConfigError::DimNotDivisible);
        }
        if (dim / n_heads) % 2 != 0 {
            return Err(ConfigError::OddHeadSize);
        }
        if c.sizes_fit() {
            Ok(c)
        } else {
            Err(ConfigError::TooLarge)
        }
    }

    /// Whether all buffer sizes stay within `SIZE_LIMIT`.
    fn sizes_fit(&self) -> (r: bool)
        requires
            self.positive(),
            self.heads_ok(),
        ensures
            r == self.buffers_fit(),
    {
        let dim = self.dim as usize;
        let hidden = self.hidden_dim as usize;
        let layers = self.n_layers as usize;
        let heads = self.n_heads as usize;
        let seq = self.seq_len as usize;
        let kv_dim = self.kv_dim();
        proof {
            lemma_kv_dim_bounds(*self);
        }
        if bounded_product(seq, dim, 1).is_none() {
            return false;
        }
        if bounded_product(seq, hidden, 2).is_none() {
            return false;
        }
        if bounded_product(heads, seq, seq).is_none() {
            return false;
        }
        if bounded_product(layers, seq, kv_dim).is_none() {
            return false;
        }
        DenseLayout::new(self).is_some()
    }

    /// Reads a configuration from the first 28 bytes of a dense checkpoint:
    /// seven little-endian 32-bit integers.
    pub fn from_bytes(bytes: &[u8]) -> (r: Result<Config, ConfigError>)
        ensures
            bytes@.len() < 28 ==> r == Err::<Config, ConfigError>(ConfigError::Truncated),
            bytes@.len() >= 28 ==> ({
                let c = Config {
                    dim: i32_le(bytes@, 0),
                    hidden_dim: i32_le(bytes@, 4),
                    n_layers: i32_le(bytes@, 8),
                    n_heads: i32_le(bytes@, 12),
                    n_kv_heads: i32_le(bytes@, 16),
                    vocab_size: i32_le(bytes@, 20),
                    seq_len: i32_le(bytes@, 24),
                };
                &&& c.wf() ==> r == Ok::<Config, ConfigError>(c)
                &&& !c.wf() ==> r == Err::<Config, ConfigError>(c.first_error())
            }),
    {
        if bytes.len() < 28 {
            return Err(ConfigError::Truncated);
        }
        Config::new(
            read_i32_le(bytes, 0),
            read_i32_le(bytes, 4),
            read_i32_le(bytes, 8),
            read_i32_le(bytes, 12),
            read_i32_le(bytes, 16),
            read_i32_le(bytes, 20),
            read_i32_le(bytes, 24),
        )
    }

    pub fn dim(&self) -> (r: usize)
        ensures
            r == self.dim as usize,
    {
        self.dim as usize
    }

    pub fn hidden_dim(&self) -> (r: usize)
        ensures
            r == self.hidden_dim as usize,
    {
        self.hidden_dim as usize
    }

    pub fn n_layers(&self) -> (r: usize)
        ensures
            r == self.n_layers as usize,
    {
        self.n_layers as usize
    }

    pub fn n_heads(&self) -> (r: usize)
        ensures
            r == self.n_heads as usize,
    {
        self.n_heads as usize
    }

    pub fn n_kv_heads(&self) -> (r: usize)
        ensures
            r == self.n_kv_heads as usize,
    {
        self.n_kv_heads as usize
    }

    /// Whether the classifier reuses the token embedding table.
    pub fn shared_weight(&self) -> (r: bool)
        ensures
            r == self.shared(),
    {
        self.vocab_size > 0
    }

    /// The magnitude of the stored vocabulary size.
    pub fn vocab_size(&self) -> (r: usize)
        ensures
            r == self.svocab(),
    {
        if self.vocab_size < 0 {
            (0 - (self.vocab_size as i64)) as usize
        } else {
            self.vocab_size as usize
        }
    }

    pub fn seq_len(&self) -> (r: usize)
        ensures
            r == self.seq_len as usize,
    {
        self.seq_len as usize
    }

    /// Width of one key (or value) row: `dim * n_kv_heads / n_heads`.
    pub fn kv_dim(&self) -> (r: usize)
        requires
            self.n_heads > 0,
            self.dim >= 0,
            self.n_kv_heads >= 0,
        ensures
            r == self.skv_dim() as usize,
            self.positive() && self.heads_ok() ==> r == self.skv_dim(),
    {
        let a = self.dim as i64;
        let b = self.n_kv_heads as i64;
        assert(0 <= a * b <= 0x4000_0000_0000_0000) by (nonlinear_arith)
            requires 0 <= a <= 0x7fff_ffff, 0 <= b <= 0x7fff_ffff;
        let p: i64 = a * b;
        proof {
            if self.positive() && self.heads_ok() {
                lemma_kv_dim_bounds(*self);
            }
        }
        (p / (self.n_heads as i64)) as usize
    }
}

/// A 32-bit little-endian integer read from four bytes.
pub open spec fn i32_le(b: Seq<u8>, at: int) -> i32 {
    (b[at] as int + 256 * b[at + 1] as int + 65536 * b[at + 2] as int
        + 16777216 * b[at + 3] as int) as i32
}

fn read_i32_le(b: &[u8], at: usize) -> (r: i32)
    requires
        at + 4 <= b@.len(),
    ensures
        r == i32_le(b@, at as int),
{
    let v: u32 = b[at] as u32 + 256 * (b[at + 1] as u32) + 65536 * (b[at + 2] as u32)
        + 16777216 * (b[at + 3] as u32);
    v as i32
}

pub proof fn lemma_kv_dim_bounds(c: Config)
    requires
        c.positive(),
        c.heads_ok(),
    ensures
        c.skv_dim() == c.shead_size() * c.skv_heads(),
        0 < c.skv_dim() <= c.sdim(),
        c.shead_size() > 0,
        c.skv_dim() % c.shead_size() == 0,
        c.sdim() == c.shead_size() * c.sheads(),
        c.skv_mul() * c.skv_heads() == c.sheads(),
        c.skv_mul() >= 1,
{
    let d = c.sdim();
    let h = c.sheads();
    let kv = c.skv_heads();
    let hs = d / h;
    vstd::arithmetic::div_mod::lemma_fundamental_div_mod(d, h);
    assert(d == hs * h);
    assert(d * kv == (hs * kv) * h) by (nonlinear_arith)
        requires d == hs * h;
    vstd::arithmetic::div_mod::lemma_div_multiples_vanish(hs * kv, h);
    assert(hs * h == d);
    assert(hs > 0) by (nonlinear_arith)
        requires hs * h == d, d > 0, h > 0;
    vstd::arithmetic::div_mod::lemma_fundamental_div_mod(h, kv);
    assert(kv <= h) by {
        vstd::arithmetic::div_mod::lemma_mod_is_zero(h as nat, kv as nat);
    }
    assert(hs * kv <= hs * h) by (nonlinear_arith)
        requires kv <= h, hs > 0;
    assert(hs * kv > 0) by (nonlinear_arith)
        requires kv > 0, hs > 0;
    vstd::arithmetic::div_mod::lemma_mod_multiples_basic(kv, hs);
    assert((kv * hs) == (hs * kv)) by (nonlinear_arith);
    let m = h / kv;
    assert(kv * m == h);
    assert(m >= 1) by (nonlinear_arith)
        requires kv * m == h, h > 0, kv > 0;
    assert(m * kv == h) by (nonlinear_arith)
        requires kv * m == h;
}

} // verus!
