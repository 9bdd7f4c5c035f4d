use vstd::prelude::*;
use crate::config::{Config, lemma_kv_dim_bounds};
use crate::layout::{dense_offsets, DenseLayout};
use crate::weights::lemma_stack;

verus! {

/// The tensors a named-tensor checkpoint provides, by role.
#[derive(Clone, Copy, Debug, PartialEq, Eq, Structural)]
pub enum Tensor {
    Embedding,
    AttnNorm,
    Query,
    Key,
    Value,
    Output,
    FfnNorm,
    Gate,
    Down,
    Up,
    FinalNorm,
    Classifier,
}

/// Why a tensor could not be placed.
#[derive(Clone, Copy, Debug, PartialEq, Eq, Structural)]
pub enum TensorError {
    /// The tensor's shape is not the one the configuration implies.
    Shape,
    /// The layer index is not below `n_layers`.
    Layer,
}

impl Tensor {
    pub open spec fn per_layer(self) -> bool {
        !(self is Embedding || self is FinalNorm || self is Classifier)
    }

    /// The checkpoint shape of this tensor: `[rows, cols]`, or `[len]` for a
    /// norm weight.
    pub open spec fn shape(self, c: Config) -> Seq<int> {
        let d = c.sdim();
        match self {
            Tensor::Embedding => seq![c.svocab(), d],
            Tensor::Classifier => seq![c.svocab(), d],
            Tensor::AttnNorm => seq![d],
            Tensor::FfnNorm => seq![d],
            Tensor::FinalNorm => seq![d],
            Tensor::Query => seq![d, d],
            Tensor::Output => seq![d, d],
            Tensor::Key => seq![c.skv_dim(), d],
            Tensor::Value => seq![c.skv_dim(), d],
            Tensor::Gate => seq![c.shidden(), d],
            Tensor::Up => seq![c.shidden(), d],
            Tensor::Down => seq![d, c.shidden()],
        }
    }

    /// Number of elements.
    pub open spec fn size(self, c: Config) -> int {
        let s = self.shape(c);
        if s.len() == 1 { s[0] } else { s[0] * s[1] }
    }

    /// Width of one row; a norm weight is a single row.
    pub open spec fn row_width(self, c: Config) -> int {
        let s = self.shape(c);
        if s.len() == 1 { s[0] } else { s[1] }
    }

    /// Query and key rows are stored with the two halves of each head
    /// apart; the engine rotates adjacent pairs, so they are interleaved.
    pub open spec fn interleaved(self) -> bool {
        self is Query || self is Key
    }

    /// Where the tensor of `layer` starts in the dense layout.
    pub open spec fn dense_start(self, c: Config, layer: int) -> int {
        let o = dense_offsets(c);
        let z = self.size(c);
        match self {
            Tensor::Embedding => 0,
            Tensor::Classifier => o.wcls_start,
            Tensor::FinalNorm => o.rms_final,
            Tensor::AttnNorm => o.rms_att + layer * z,
            Tensor::FfnNorm => o.rms_ffn + layer * z,
            Tensor::Query => o.wq + layer * z,
            Tensor::Key => o.wk + layer * z,
            Tensor::Value => o.wv + layer * z,
            Tensor::Output => o.wo + layer * z,
            Tensor::Gate => o.w1 + layer * z,
            Tensor::Down => o.w2 + layer * z,
            Tensor::Up => o.w3 + layer * z,
        }
    }
}

/// The source row that lands on row `r` when each block of `hs` rows is
/// turned from "first half, second half" into adjacent pairs.
pub open spec fn interleave_source(r: int, hs: int) -> int {
    let t = r / hs * hs;
    let k = r % hs;
    if k % 2 == 0 { t + k / 2 } else { t + hs / 2 + k / 2 }
}

/// The source row of row `r` for tensor `t`.
pub open spec fn source_row(t: Tensor, c: Config, r: int) -> int {
    if t.interleaved() { interleave_source(r, c.shead_size()) } else { r }
}

/// Whether `shape` is the checkpoint shape of `t` under `c`.
pub fn shape_matches(t: Tensor, c: &Config, shape: &[usize]) -> (r: bool)
    requires
        c.wf(),
    ensures
        r == (shape@.len() == t.shape(*c).len() && forall|i: int|
            0 <= i < shape@.len() ==> shape@[i] == #[trigger] t.shape(*c)[i]),
{
    proof {
        lemma_kv_dim_bounds(*c);
    }
    let d = c.dim();
    let v = c.vocab_size();
    let kv = c.kv_dim();
    let h = c.hidden_dim();
    let ghost e = t.shape(*c);
    match t {
        Tensor::AttnNorm | Tensor::FfnNorm | Tensor::FinalNorm => {
            assert(e.len() == 1 && e[0] == d);
            return shape.len() == 1 && shape[0] == d;
        },
        _ => {},
    }
    let rows = match t {
        Tensor::Embedding | Tensor::Classifier => v,
        Tensor::Key | Tensor::Value => kv,
        Tensor::Gate | Tensor::Up => h,
        _ => d,
    };
    let cols = match t {
        Tensor::Down => h,
        _ => d,
    };
    assert(e.len() == 2 && e[0] == rows && e[1] == cols);
    shape.len() == 2 && shape[0] == rows && shape[1] == cols
}

proof fn lemma_size_bounds(t: Tensor, c: Config, layer: int)
    requires
        c.wf(),
        !c.shared(),
        0 <= layer < c.slayers(),
    ensures
        t.row_width(c) > 0,
        t.size(c) > 0,
        t.size(c) % t.row_width(c) == 0,
        t.size(c) / t.row_width(c) * t.row_width(c) == t.size(c),
        t.interleaved() ==> (t.size(c) / t.row_width(c)) % c.shead_size() == 0,
        0 <= t.dense_start(c, if t.per_layer() { layer } else { 0 }),
        t.dense_start(c, if t.per_layer() { layer } else { 0 }) + t.size(c) <= c.dense_len(),
{
    lemma_kv_dim_bounds(c);
    let d = c.sdim();
    let l = c.slayers();
    let h = c.shidden();
    let kv = c.skv_dim();
    let v = c.svocab();
    let o = dense_offsets(c);
    let z = t.size(c);
    let w = t.row_width(c);
    assert(d * d > 0 && kv * d > 0 && h * d > 0 && d * h > 0 && v * d > 0) by (nonlinear_arith)
        requires d > 0, kv > 0, h > 0, v > 0;
    assert(l * d * d == l * (d * d) && l * d * kv == l * (kv * d) && l * d * h == l * (h * d)
        && l * h * d == l * (d * h)) by (nonlinear_arith);
    if t.per_layer() {
        lemma_stack(layer, l, z);
    }
    assert(c.sseq() * c.shead_size() / 2 * 2 >= 0) by (nonlinear_arith)
        requires c.sseq() > 0, c.shead_size() > 0;
    let rows = if t.shape(c).len() == 1 { 1 } else { t.shape(c)[0] };
    assert(z == rows * w);
    vstd::arithmetic::div_mod::lemma_div_multiples_vanish(rows, w);
    assert(rows * w == w * rows) by (nonlinear_arith);
    vstd::arithmetic::div_mod::lemma_mod_multiples_basic(rows, w);
    if t.interleaved() {
        let hs = c.shead_size();
        if t is Query {
            assert(d == hs * c.sheads());
            vstd::arithmetic::div_mod::lemma_mod_multiples_basic(c.sheads(), hs);
            assert(c.sheads() * hs == hs * c.sheads()) by (nonlinear_arith);
        } else {
            assert(kv == hs * c.skv_heads());
            vstd::arithmetic::div_mod::lemma_mod_multiples_basic(c.skv_heads(), hs);
            assert(c.skv_heads() * hs == hs * c.skv_heads()) by (nonlinear_arith);
        }
    }
}

/// The source row stays inside the tensor: rows come in whole heads.
proof fn lemma_source_in_range(r: int, rows: int, hs: int)
    requires
        0 <= r < rows,
        hs > 0,
        hs % 2 == 0,
        rows % hs == 0,
    ensures
        0 <= interleave_source(r, hs) < rows,
{
    let t = r / hs * hs;
    let k = r % hs;
    vstd::arithmetic::div_mod::lemma_fundamental_div_mod(r, hs);
    vstd::arithmetic::div_mod::lemma_fundamental_div_mod(rows, hs);
    let q = r / hs;
    let qr = rows / hs;
    assert(hs * q <= r);
    assert(rows == hs * qr);
    assert(q < qr) by (nonlinear_arith)
        requires hs * q <= r, r < rows, rows == hs * qr, hs > 0;
    assert(t + hs <= rows) by (nonlinear_arith)
        requires r / hs < rows / hs, rows == hs * (rows / hs), t == r / hs * hs, hs > 0;
    assert(t >= 0) by (nonlinear_arith)
        requires r >= 0, hs > 0, t == r / hs * hs, r / hs >= 0;
}

/// Copies a checkpoint tensor into its place in a dense weight buffer.
///
/// Row `r` of the placed tensor is row `source_row(t, c, r)` of `src`, so
/// query and key projections come out with each head's coordinate pairs
/// adjacent. Nothing outside the tensor's place changes. A tensor of the
/// wrong size, or of a layer beyond `n_layers`, is refused and nothing
/// changes.
pub fn place<T: Copy>(data: &mut Vec<T>, c: &Config, t: Tensor, layer: usize, src: &[T]) -> (r: Result<(), TensorError>)
    requires
        c.wf(),
        !c.shared(),
        old(data)@.len() == c.dense_len(),
    ensures
        t.per_layer() && layer >= c.slayers() ==> r == Err::<(), TensorError>(TensorError::Layer),
        !(t.per_layer() && layer >= c.slayers()) && src@.len() != t.size(*c) ==> r == Err::<(), TensorError>(TensorError::Shape),
        r is Err ==> final(data)@ == old(data)@,
        r is Ok <==> (!(t.per_layer() && layer >= c.slayers()) && src@.len() == t.size(*c)),
        r is Ok ==> ({
            let l = if t.per_layer() { layer as int } else { 0 };
            let start = t.dense_start(*c, l);
            let w = t.row_width(*c);
            &&& final(data)@.len() == old(data)@.len()
            &&& forall|idx: int|
                0 <= idx < old(data)@.len() && (idx < start || idx >= start + t.size(*c))
                    ==> #[trigger] final(data)@[idx] == old(data)@[idx]
            &&& forall|idx: int|
                start <= idx < start + t.size(*c) ==> #[trigger] final(data)@[idx] == src@[
                    source_row(t, *c, (idx - start) / w) * w + (idx - start) % w]
        }),
{
    let per_layer = match t {
        Tensor::Embedding => false,
        Tensor::FinalNorm => false,
        Tensor::Classifier => false,
        _ => true,
    };
    if per_layer && layer >= c.n_layers() {
        return Err(TensorError::Layer);
    }
    let l = if per_layer { layer } else { 0 };
    proof {
        lemma_kv_dim_bounds(*c);
        lemma_size_bounds(t, *c, l as int);
    }
    let layout = match DenseLayout::new(c) {
        Some(x) => x,
        None => {
            return Err(TensorError::Shape);
        },
    };
    let d = c.dim();
    let v = c.vocab_size();
    let kv = c.kv_dim();
    let h = c.hidden_dim();
    let rows: usize = match t {
        Tensor::Embedding | Tensor::Classifier => v,
        Tensor::FinalNorm | Tensor::AttnNorm | Tensor::FfnNorm => 1,
        Tensor::Key | Tensor::Value => kv,
        Tensor::Gate | Tensor::Up => h,
        Tensor::Query | Tensor::Output | Tensor::Down => d,
    };
    let width: usize = match t {
        Tensor::Down => h,
        _ => d,
    };
    let base: usize = match t {
        Tensor::Embedding => 0,
        Tensor::Classifier => layout.wcls_start,
        Tensor::FinalNorm => layout.rms_final,
        Tensor::AttnNorm => layout.rms_att,
        Tensor::FfnNorm => layout.rms_ffn,
        Tensor::Query => layout.wq,
        Tensor::Output => layout.wo,
        Tensor::Key => layout.wk,
        Tensor::Value => layout.wv,
        Tensor::Gate => layout.w1,
        Tensor::Up => layout.w3,
        Tensor::Down => layout.w2,
    };
    let ghost z = t.size(*c);
    assert(rows * width == z && width == t.row_width(*c));
    proof {
        vstd::arithmetic::div_mod::lemma_div_multiples_vanish(rows as int, width as int);
        assert(width * rows == rows * width) by (nonlinear_arith);
    }
    if src.len() != rows * width {
        return Err(TensorError::Shape);
    }
    let size = rows * width;
    let start = base + l * size;
    assert(start == t.dense_start(*c, l as int));
    let interleave = match t {
        Tensor::Query => true,
        Tensor::Key => true,
        _ => false,
    };
    let hs = d / c.n_heads();
    let half = hs / 2;
    let ghost old_data = data@;
    let _ = src.len();
    let mut r: usize = 0;
    while r < rows
        invariant
            r <= rows,
            rows * width == z,
            z == t.size(*c),
            width == t.row_width(*c),
            width > 0,
            src@.len() == z,
            src@.len() <= usize::MAX,
            start + z <= old_data.len(),
            data@.len() == old_data.len(),
            old_data.len() <= usize::MAX,
            interleave == t.interleaved(),
            hs == c.shead_size(),
            hs > 0,
            hs % 2 == 0,
            half == hs / 2,
            interleave ==> rows % hs == 0,
            forall|idx: int|
                0 <= idx < old_data.len() && (idx < start || idx >= start + z) ==> #[trigger] data@[idx]
                    == old_data[idx],
            forall|idx: int|
                start <= idx < start + r * width ==> #[trigger] data@[idx] == src@[source_row(
                    t,
                    *c,
                    (idx - start) / width as int,
                ) * width + (idx - start) % width as int],
        decreases rows - r,
    {
        proof {
            if interleave {
                lemma_source_in_range(r as int, rows as int, hs as int);
                vstd::arithmetic::div_mod::lemma_fundamental_div_mod(r as int, hs as int);
                assert(r / hs * hs == hs * (r / hs)) by (nonlinear_arith);
            }
        }
        let src_row = if interleave {
            let k = r % hs;
            if k % 2 == 0 {
                r / hs * hs + k / 2
            } else {
                r / hs * hs + half + k / 2
            }
        } else {
            r
        };
        proof {
            if interleave {
                lemma_source_in_range(r as int, rows as int, hs as int);
            }
            assert(src_row == source_row(t, *c, r as int));
            lemma_stack(src_row as int, rows as int, width as int);
            lemma_stack(r as int, rows as int, width as int);
        }
        let dst_base = start + r * width;
        let src_base = src_row * width;
        let mut j: usize = 0;
        while j < width
            invariant
                j <= width,
                width > 0,
                dst_base == start + r * width,
                r < rows,
                src_base + width <= src@.len(),
                src@.len() <= usize::MAX,
                src_base == source_row(t, *c, r as int) * width,
                dst_base + width <= start + z,
                start + z <= old_data.len(),
                data@.len() == old_data.len(),
                old_data.len() <= usize::MAX,
                forall|idx: int|
                    0 <= idx < old_data.len() && (idx < start || idx >= start + z) ==> #[trigger] data@[idx]
                        == old_data[idx],
                forall|idx: int|
                    start <= idx < dst_base + j ==> #[trigger] data@[idx] == src@[source_row(
                        t,
                        *c,
                        (idx - start) / width as int,
                    ) * width + (idx - start) % width as int],
            decreases width - j,
        {
            proof {
                let idx = dst_base + j;
                vstd::arithmetic::div_mod::lemma_fundamental_div_mod_converse(
                    idx - start, width as int, r as int, j as int);
            }
            data.set(dst_base + j, src[src_base + j]);
            j = j + 1;
        }
        proof {
            assert(dst_base + width == start + (r + 1) * width) by (nonlinear_arith)
                requires dst_base == start + r * width;
        }
        r = r + 1;
    }
    Ok(())
}

/// Byte length of tensor `i` once half-precision data is widened to `f32`.
pub open spec fn widened_len(lens: Seq<usize>, widen: Seq<bool>, i: int) -> int {
    if widen[i] { 2 * lens[i] } else { lens[i] as int }
}

/// Where tensor `i` starts when the widened tensors are laid end to end.
pub open spec fn widened_start(lens: Seq<usize>, widen: Seq<bool>, i: int) -> int
    decreases i,
{
    if i <= 0 { 0 } else { widened_start(lens, widen, i - 1) + widened_len(lens, widen, i - 1) }
}

/// Byte ranges of tensors stored back to back, tensor `i` taking twice its
/// `lens[i]` bytes when `widen[i]`. `None` when the total exceeds `usize`.
pub fn widened_offsets(lens: &[usize], widen: &[bool]) -> (r: Option<Vec<(usize, usize)>>)
    requires
        lens@.len() == widen@.len(),
    ensures
        r matches Some(v) ==> {
            &&& v@.len() == lens@.len()
            &&& forall|i: int| 0 <= i < v@.len() ==> (#[trigger] v@[i]).0 == widened_start(lens@, widen@, i)
                && v@[i].1 == widened_start(lens@, widen@, i) + widened_len(lens@, widen@, i)
        },
        r is None ==> widened_start(lens@, widen@, lens@.len() as int) > usize::MAX,
{
    let mut out: Vec<(usize, usize)> = Vec::new();
    let mut at: usize = 0;
    let mut i: usize = 0;
    while i < lens.len()
        invariant
            i <= lens@.len(),
            lens@.len() == widen@.len(),
            at == widened_start(lens@, widen@, i as int),
            out@.len() == i,
            forall|k: int| 0 <= k < i ==> (#[trigger] out@[k]).0 == widened_start(lens@, widen@, k)
                && out@[k].1 == widened_start(lens@, widen@, k) + widened_len(lens@, widen@, k),
        decreases lens@.len() - i,
    {
        let len = if widen[i] {
            match lens[i].checked_mul(2) {
                Some(x) => x,
                None => {
                    proof {
                        lemma_widened_grows(lens@, widen@, i as int + 1, lens@.len() as int);
                    }
                    return None;
                },
            }
        } else {
            lens[i]
        };
        let end = match at.checked_add(len) {
            Some(e) => e,
            None => {
                proof {
                    lemma_widened_grows(lens@, widen@, i as int + 1, lens@.len() as int);
                }
                return None;
            },
        };
        out.push((at, end));
        at = end;
        i = i + 1;
    }
    Some(out)
}

proof fn lemma_widened_grows(lens: Seq<usize>, widen: Seq<bool>, i: int, j: int)
    requires
        0 <= i <= j <= lens.len(),
        lens.len() == widen.len(),
    ensures
        widened_start(lens, widen, i) <= widened_start(lens, widen, j),
    decreases j - i,
{
    if i < j {
        lemma_widened_grows(lens, widen, i, j - 1);
    }
}

/// `len` rounded up to a multiple of 8, the alignment of the data that
/// follows a tensor-collection header.
pub fn padded_len(len: usize) -> (r: Option<usize>)
    ensures
        r matches Some(p) ==> p % 8 == 0 && len <= p < len + 8,
        r is None <==> len > usize::MAX - 7,
{
    if len > usize::MAX - 7 {
        return None;
    }
    let p = (len + 7) / 8 * 8;
    Some(p)
}

} // verus!
