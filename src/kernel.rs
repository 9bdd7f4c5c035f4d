use vstd::prelude::*;

verus! {

/// The scalar arithmetic the engine runs on.
///
/// The engine only moves values and decides which ones meet; every number
/// it produces comes from these operations. Each is a function of its
/// arguments: the spec operation of the same name says which.
pub trait Real: Copy + Sized {
    spec fn zero_s() -> Self;

    spec fn one_s() -> Self;

    spec fn add_s(self, o: Self) -> Self;

    spec fn sub_s(self, o: Self) -> Self;

    spec fn mul_s(self, o: Self) -> Self;

    spec fn div_s(self, o: Self) -> Self;

    spec fn exp_s(self) -> Self;

    spec fn gt_s(self, o: Self) -> bool;

    spec fn sigmoid_s(self) -> Self;

    spec fn rms_scale_s(sum_sq: Self, n: usize) -> Self;

    spec fn inv_sqrt_s(n: usize) -> Self;

    spec fn rotation_s(pos: usize, i: usize, head_size: usize) -> (Self, Self);

    fn zero() -> (r: Self)
        ensures
            r == Self::zero_s(),
    ;

    fn one() -> (r: Self)
        ensures
            r == Self::one_s(),
    ;

    fn plus(self, o: Self) -> (r: Self)
        ensures
            r == self.add_s(o),
    ;

    fn minus(self, o: Self) -> (r: Self)
        ensures
            r == self.sub_s(o),
    ;

    fn times(self, o: Self) -> (r: Self)
        ensures
            r == self.mul_s(o),
    ;

    fn divide(self, o: Self) -> (r: Self)
        ensures
            r == self.div_s(o),
    ;

    /// `e^self`.
    fn exp(self) -> (r: Self)
        ensures
            r == self.exp_s(),
    ;

    /// Whether `self > o`.
    fn greater(self, o: Self) -> (r: bool)
        ensures
            r == self.gt_s(o),
    ;

    /// `1 / (1 + e^-self)`.
    fn sigmoid(self) -> (r: Self)
        ensures
            r == self.sigmoid_s(),
    ;

    /// The RMSNorm scale `(sum_sq / n + 1e-5)^(-1/2)`.
    fn rms_scale(sum_sq: Self, n: usize) -> (r: Self)
        ensures
            r == Self::rms_scale_s(sum_sq, n),
    ;

    /// `1 / sqrt(n)`.
    fn inv_sqrt(n: usize) -> (r: Self)
        ensures
            r == Self::inv_sqrt_s(n),
    ;

    /// `(cos, sin)` of `pos * 10000^(-i / head_size)`.
    fn rotation(pos: usize, i: usize, head_size: usize) -> (r: (Self, Self))
        ensures
            r == Self::rotation_s(pos, i, head_size),
    ;
}

/// A matrix seen through a flat buffer: element `(i, j)` is at
/// `offset + i * row_stride + j * col_stride`.
#[derive(Clone, Copy, Debug, PartialEq, Eq, Structural)]
pub struct Strided {
    pub offset: usize,
    pub row_stride: usize,
    pub col_stride: usize,
}

impl Strided {
    pub open spec fn at(self, i: int, j: int) -> int {
        self.offset + i * self.row_stride + j * self.col_stride
    }

    /// The last element of a `rows x cols` matrix.
    pub open spec fn last(self, rows: int, cols: int) -> int {
        self.at(rows - 1, cols - 1)
    }

    /// A `rows x cols` matrix through this view lies inside a buffer of
    /// `len` elements.
    pub open spec fn fits(self, rows: int, cols: int, len: int) -> bool {
        rows == 0 || cols == 0 || self.last(rows, cols) < len
    }

    /// Index `idx` lies outside the range that a `rows x cols` matrix spans.
    pub open spec fn outside(self, rows: int, cols: int, idx: int) -> bool {
        rows == 0 || cols == 0 || idx < self.offset || idx > self.last(rows, cols)
    }
}

pub proof fn lemma_at_bounded(v: Strided, rows: int, cols: int, i: int, j: int)
    requires
        0 <= i < rows,
        0 <= j < cols,
    ensures
        v.offset <= v.at(i, j) <= v.last(rows, cols),
        0 <= i * v.row_stride,
        0 <= j * v.col_stride,
{
    let rs = v.row_stride as int;
    let cs = v.col_stride as int;
    assert(0 <= i * rs <= (rows - 1) * rs) by (nonlinear_arith)
        requires 0 <= i <= rows - 1, rs >= 0;
    assert(0 <= j * cs <= (cols - 1) * cs) by (nonlinear_arith)
        requires 0 <= j <= cols - 1, cs >= 0;
}

impl Strided {
    /// Distinct cells of a `rows x cols` matrix land on distinct elements:
    /// a unit row stride with columns at least `rows` apart, or a unit
    /// column stride with rows at least `cols` apart.
    pub open spec fn separated(self, rows: int, cols: int) -> bool {
        if self.row_stride == 1 {
            self.col_stride >= rows
        } else {
            self.col_stride == 1 && self.row_stride >= cols
        }
    }

    pub open spec fn row_of(self, idx: int) -> int {
        if self.row_stride == 1 {
            (idx - self.offset) % (self.col_stride as int)
        } else {
            (idx - self.offset) / (self.row_stride as int)
        }
    }

    pub open spec fn col_of(self, idx: int) -> int {
        if self.row_stride == 1 {
            (idx - self.offset) / (self.col_stride as int)
        } else {
            (idx - self.offset) % (self.row_stride as int)
        }
    }

    /// Element `idx` is a cell of the `rows x cols` matrix.
    pub open spec fn hits(self, rows: int, cols: int, idx: int) -> bool {
        &&& 0 <= self.row_of(idx) < rows
        &&& 0 <= self.col_of(idx) < cols
        &&& self.at(self.row_of(idx), self.col_of(idx)) == idx
    }
}

/// Cell `(i, j)` of a separated view is found again from its index.
pub proof fn lemma_cell_coords(v: Strided, rows: int, cols: int, i: int, j: int)
    requires
        v.separated(rows, cols),
        0 <= i < rows,
        0 <= j < cols,
    ensures
        v.row_of(v.at(i, j)) == i,
        v.col_of(v.at(i, j)) == j,
        v.hits(rows, cols, v.at(i, j)),
{
    let x = v.at(i, j) - v.offset;
    if v.row_stride == 1 {
        assert(i * v.row_stride == i) by (nonlinear_arith)
            requires v.row_stride == 1;
        assert(x == j * v.col_stride + i);
        vstd::arithmetic::div_mod::lemma_fundamental_div_mod_converse(x, v.col_stride as int, j, i);
    } else {
        assert(j * v.col_stride == j) by (nonlinear_arith)
            requires v.col_stride == 1;
        assert(x == i * v.row_stride + j);
        vstd::arithmetic::div_mod::lemma_fundamental_div_mod_converse(x, v.row_stride as int, i, j);
    }
}

/// A cell lies inside the range the matrix spans.
pub proof fn lemma_hits_inside(v: Strided, rows: int, cols: int, idx: int)
    requires
        v.hits(rows, cols, idx),
    ensures
        !v.outside(rows, cols, idx),
{
    lemma_at_bounded(v, rows, cols, v.row_of(idx), v.col_of(idx));
}

/// `sum_{p < k} a(i, p) * b(p, j)`, added up from `p = 0`.
pub open spec fn dot<T: Real>(a: Seq<T>, va: Strided, b: Seq<T>, vb: Strided, i: int, j: int, k: int) -> T
    decreases k,
{
    if k <= 0 {
        T::zero_s()
    } else {
        dot(a, va, b, vb, i, j, k - 1).add_s(a[va.at(i, k - 1)].mul_s(b[vb.at(k - 1, j)]))
    }
}

/// The new value of cell `(i, j)` of `c := alpha * a * b + beta * c`; with
/// no `beta` the old cell is not read.
pub open spec fn gemm_cell<T: Real>(
    old_c: T,
    alpha: T,
    a: Seq<T>,
    va: Strided,
    b: Seq<T>,
    vb: Strided,
    beta: Option<T>,
    i: int,
    j: int,
    k: int,
) -> T {
    let s = alpha.mul_s(dot(a, va, b, vb, i, j, k));
    match beta {
        Some(bt) => bt.mul_s(old_c).add_s(s),
        None => s,
    }
}

impl Strided {
    /// Distinct cells of a `rows x cols` matrix sit at distinct offsets.
    pub open spec fn injective(self, rows: int, cols: int) -> bool {
        forall|i1: int, j1: int, i2: int, j2: int|
            #![trigger self.at(i1, j1), self.at(i2, j2)]
            0 <= i1 < rows && 0 <= j1 < cols && 0 <= i2 < rows && 0 <= j2 < cols && self.at(i1, j1)
                == self.at(i2, j2) ==> i1 == i2 && j1 == j2
    }

    /// Element `idx` is a cell of the `rows x cols` matrix.
    pub open spec fn is_cell(self, rows: int, cols: int, idx: int) -> bool {
        exists|i: int, j: int| 0 <= i < rows && 0 <= j < cols && #[trigger] self.at(i, j) == idx
    }
}

/// A separated view has distinct cell offsets, and its cells are what
/// `hits` finds.
pub proof fn lemma_separated_injective(v: Strided, rows: int, cols: int)
    requires
        v.separated(rows, cols),
    ensures
        v.injective(rows, cols),
        forall|idx: int| #[trigger] v.is_cell(rows, cols, idx) ==> v.hits(rows, cols, idx),
{
    assert forall|i1: int, j1: int, i2: int, j2: int|
        #![trigger v.at(i1, j1), v.at(i2, j2)]
        0 <= i1 < rows && 0 <= j1 < cols && 0 <= i2 < rows && 0 <= j2 < cols && v.at(i1, j1) == v.at(i2, j2)
            implies i1 == i2 && j1 == j2 by {
        lemma_cell_coords(v, rows, cols, i1, j1);
        lemma_cell_coords(v, rows, cols, i2, j2);
    }
    assert forall|idx: int| #[trigger] v.is_cell(rows, cols, idx) implies v.hits(rows, cols, idx) by {
        let (i, j) = choose|i: int, j: int| 0 <= i < rows && 0 <= j < cols && #[trigger] v.at(i, j) == idx;
        lemma_cell_coords(v, rows, cols, i, j);
    }
}

/// `c := alpha * a * b + beta * c` (or `c := alpha * a * b` with no `beta`),
/// where `a` is `m x k`, `b` is `k x n` and `c` is `m x n`, each addressed
/// through its own strides.
///
/// Every cell of `c` gets its value; no other element of `c` changes.
pub fn gemm<T: Real>(
    m: usize,
    k: usize,
    n: usize,
    alpha: T,
    a: &[T],
    va: Strided,
    b: &[T],
    vb: Strided,
    beta: Option<T>,
    c: &mut Vec<T>,
    vc: Strided,
)
    requires
        va.fits(m as int, k as int, a@.len() as int),
        vb.fits(k as int, n as int, b@.len() as int),
        vc.fits(m as int, n as int, old(c)@.len() as int),
        vc.injective(m as int, n as int),
    ensures
        final(c)@.len() == old(c)@.len(),
        forall|idx: int|
            0 <= idx < old(c)@.len() && !vc.is_cell(m as int, n as int, idx) ==> #[trigger] final(c)@[idx]
                == old(c)@[idx],
        forall|idx: int|
            0 <= idx < old(c)@.len() && vc.outside(m as int, n as int, idx) ==> #[trigger] final(c)@[idx]
                == old(c)@[idx],
        forall|i: int, j: int|
            0 <= i < m && 0 <= j < n ==> #[trigger] final(c)@[vc.at(i, j)] == gemm_cell(
                old(c)@[vc.at(i, j)],
                alpha,
                a@,
                va,
                b@,
                vb,
                beta,
                i,
                j,
                k as int,
            ),
{
    let ghost c0 = c@;
    let _ = a.len();
    let _ = b.len();
    let _ = c.len();
    let mut i: usize = 0;
    while i < m
        invariant
            a@.len() <= usize::MAX && b@.len() <= usize::MAX && c0.len() <= usize::MAX,
            i <= m,
            va.fits(m as int, k as int, a@.len() as int),
            vb.fits(k as int, n as int, b@.len() as int),
            vc.fits(m as int, n as int, c0.len() as int),
            vc.injective(m as int, n as int),
            c@.len() == c0.len(),
            forall|idx: int|
                0 <= idx < c0.len() && !vc.is_cell(m as int, n as int, idx) ==> #[trigger] c@[idx] == c0[idx],
            forall|i2: int, j2: int|
                0 <= i2 < m && 0 <= j2 < n ==> #[trigger] c@[vc.at(i2, j2)] == if i2 < i {
                    gemm_cell(c0[vc.at(i2, j2)], alpha, a@, va, b@, vb, beta, i2, j2, k as int)
                } else {
                    c0[vc.at(i2, j2)]
                },
        decreases m - i,
    {
        let mut j: usize = 0;
        while j < n
            invariant
                a@.len() <= usize::MAX && b@.len() <= usize::MAX && c0.len() <= usize::MAX,
                i < m,
                j <= n,
                va.fits(m as int, k as int, a@.len() as int),
                vb.fits(k as int, n as int, b@.len() as int),
                vc.fits(m as int, n as int, c0.len() as int),
                vc.injective(m as int, n as int),
                c@.len() == c0.len(),
                forall|idx: int|
                    0 <= idx < c0.len() && !vc.is_cell(m as int, n as int, idx) ==> #[trigger] c@[idx] == c0[idx],
                forall|i2: int, j2: int|
                    0 <= i2 < m && 0 <= j2 < n ==> #[trigger] c@[vc.at(i2, j2)] == if i2 < i || (i2 == i && j2 < j) {
                        gemm_cell(c0[vc.at(i2, j2)], alpha, a@, va, b@, vb, beta, i2, j2, k as int)
                    } else {
                        c0[vc.at(i2, j2)]
                    },
            decreases n - j,
        {
            let mut acc = T::zero();
            let mut p: usize = 0;
            while p < k
                invariant
                    a@.len() <= usize::MAX && b@.len() <= usize::MAX,
                    i < m,
                    j < n,
                    p <= k,
                    va.fits(m as int, k as int, a@.len() as int),
                    vb.fits(k as int, n as int, b@.len() as int),
                    acc == dot(a@, va, b@, vb, i as int, j as int, p as int),
                decreases k - p,
            {
                proof {
                    lemma_at_bounded(va, m as int, k as int, i as int, p as int);
                    lemma_at_bounded(vb, k as int, n as int, p as int, j as int);
                }
                let x = a[va.offset + i * va.row_stride + p * va.col_stride];
                let y = b[vb.offset + p * vb.row_stride + j * vb.col_stride];
                acc = acc.plus(x.times(y));
                p = p + 1;
            }
            proof {
                lemma_at_bounded(vc, m as int, n as int, i as int, j as int);
            }
            let ic = vc.offset + i * vc.row_stride + j * vc.col_stride;
            let ghost before = c@;
            proof {
                assert(vc.at(i as int, j as int) == ic);
                assert(c@[vc.at(i as int, j as int)] == c0[vc.at(i as int, j as int)]);
            }
            let scaled = alpha.times(acc);
            let v = match beta {
                Some(bt) => bt.times(c[ic]).plus(scaled),
                None => scaled,
            };
            c.set(ic, v);
            proof {
                assert(vc.is_cell(m as int, n as int, ic as int));
                assert forall|i2: int, j2: int| 0 <= i2 < m && 0 <= j2 < n implies #[trigger] c@[vc.at(i2, j2)] == if i2 < i || (
                i2 == i && j2 < j + 1) {
                    gemm_cell(c0[vc.at(i2, j2)], alpha, a@, va, b@, vb, beta, i2, j2, k as int)
                } else {
                    c0[vc.at(i2, j2)]
                } by {
                    if i2 != i || j2 != j {
                        lemma_at_bounded(vc, m as int, n as int, i2, j2);
                        assert(vc.at(i2, j2) != vc.at(i as int, j as int));
                        assert(c@[vc.at(i2, j2)] == before[vc.at(i2, j2)]);
                    }
                }
            }
            j = j + 1;
        }
        i = i + 1;
    }
    proof {
        assert forall|idx: int| 0 <= idx < c0.len() && vc.outside(m as int, n as int, idx) implies #[trigger] c@[idx]
            == c0[idx] by {
            if vc.is_cell(m as int, n as int, idx) {
                let (i2, j2) = choose|i2: int, j2: int| 0 <= i2 < m && 0 <= j2 < n && #[trigger] vc.at(i2, j2) == idx;
                lemma_at_bounded(vc, m as int, n as int, i2, j2);
            }
        }
    }
}

/// `sum_{t < j} x[base + t]^2`, added up from `t = 0`.
pub open spec fn sum_sq<T: Real>(x: Seq<T>, base: int, j: int) -> T
    decreases j,
{
    if j <= 0 {
        T::zero_s()
    } else {
        sum_sq(x, base, j - 1).add_s(x[base + j - 1].mul_s(x[base + j - 1]))
    }
}

/// The RMSNorm scale of the row of width `n` that holds element `idx`.
pub open spec fn row_scale<T: Real>(x: Seq<T>, n: int, idx: int) -> T {
    T::rms_scale_s(sum_sq(x, idx / n * n, n), n as usize)
}

/// `weight * (scale * x)` at element `idx`.
pub open spec fn normed<T: Real>(x: Seq<T>, w: Seq<T>, idx: int) -> T {
    w[idx % w.len() as int].mul_s(row_scale(x, w.len() as int, idx).mul_s(x[idx]))
}

/// `x * (weight * scale)` at element `idx`, the in-place order.
pub open spec fn normed_inplace<T: Real>(x: Seq<T>, w: Seq<T>, idx: int) -> T {
    x[idx].mul_s(w[idx % w.len() as int].mul_s(row_scale(x, w.len() as int, idx)))
}

/// Element `base + j` of a row starting at `base = r * n` has column `j` and
/// row start `base`.
pub proof fn lemma_row_index(r: int, n: int, j: int)
    requires
        r >= 0,
        n > 0,
        0 <= j < n,
    ensures
        (r * n + j) % n == j,
        (r * n + j) / n * n == r * n,
{
    vstd::arithmetic::div_mod::lemma_fundamental_div_mod_converse(r * n + j, n, r, j);
}

/// `out := weight * (scale * x)` row by row, where each row of `x` has the
/// width of `weight` and `scale` is the row's RMSNorm scale.
pub fn rmsnorm<T: Real>(out: &mut Vec<T>, x: &Vec<T>, weight: &[T], rows: usize)
    requires
        weight@.len() > 0,
        x@.len() == rows * weight@.len(),
        old(out)@.len() == x@.len(),
    ensures
        final(out)@.len() == old(out)@.len(),
        forall|idx: int| 0 <= idx < x@.len() ==> #[trigger] final(out)@[idx] == normed(x@, weight@, idx),
{
    let n = weight.len();
    let _ = x.len();
    let mut r: usize = 0;
    while r < rows
        invariant
            x@.len() <= usize::MAX,
            r <= rows,
            n == weight@.len(),
            n > 0,
            x@.len() == rows * n,
            out@.len() == x@.len(),
            forall|idx: int| 0 <= idx < r * n ==> #[trigger] out@[idx] == normed(x@, weight@, idx),
        decreases rows - r,
    {
        proof {
            lemma_row_in_bounds(r as int, rows as int, n as int);
        }
        let base = r * n;
        let mut ss = T::zero();
        let mut j: usize = 0;
        while j < n
            invariant
                x@.len() <= usize::MAX,
                j <= n,
                base + n <= x@.len(),
                ss == sum_sq(x@, base as int, j as int),
            decreases n - j,
        {
            let v = x[base + j];
            ss = ss.plus(v.times(v));
            j = j + 1;
        }
        let scale = T::rms_scale(ss, n);
        let mut j: usize = 0;
        while j < n
            invariant
                x@.len() <= usize::MAX,
                j <= n,
                n == weight@.len(),
                n > 0,
                base == r * n,
                base + n <= x@.len(),
                out@.len() == x@.len(),
                scale == T::rms_scale_s(sum_sq(x@, base as int, n as int), n),
                forall|idx: int| 0 <= idx < base + j ==> #[trigger] out@[idx] == normed(x@, weight@, idx),
            decreases n - j,
        {
            proof {
                lemma_row_index(r as int, n as int, j as int);
            }
            let v = weight[j].times(scale.times(x[base + j]));
            out.set(base + j, v);
            j = j + 1;
        }
        proof {
            assert(base + n == (r + 1) * n) by (nonlinear_arith)
                requires base == r * n;
        }
        r = r + 1;
    }
}

/// `x := x * (weight * scale)` row by row, in place.
pub fn rmsnorm_inplace<T: Real>(x: &mut Vec<T>, weight: &[T], rows: usize)
    requires
        weight@.len() > 0,
        old(x)@.len() == rows * weight@.len(),
    ensures
        final(x)@.len() == old(x)@.len(),
        forall|idx: int|
            0 <= idx < old(x)@.len() ==> #[trigger] final(x)@[idx] == normed_inplace(old(x)@, weight@, idx),
{
    let n = weight.len();
    let _ = x.len();
    let ghost x0 = x@;
    let ghost len = x@.len();
    let mut r: usize = 0;
    while r < rows
        invariant
            x@.len() <= usize::MAX,
            r <= rows,
            n == weight@.len(),
            n > 0,
            x@.len() == len,
            x0.len() == len,
            len == rows * n,
            forall|idx: int| 0 <= idx < r * n ==> #[trigger] x@[idx] == normed_inplace(x0, weight@, idx),
            forall|idx: int| r * n <= idx < len ==> #[trigger] x@[idx] == x0[idx],
        decreases rows - r,
    {
        proof {
            lemma_row_in_bounds(r as int, rows as int, n as int);
        }
        let base = r * n;
        let mut ss = T::zero();
        let mut j: usize = 0;
        while j < n
            invariant
                x@.len() <= usize::MAX,
                j <= n,
                base + n <= x@.len(),
                base == r * n,
                x@.len() == len,
                forall|idx: int| r * n <= idx < len ==> #[trigger] x@[idx] == x0[idx],
                ss == sum_sq(x0, base as int, j as int),
            decreases n - j,
        {
            let v = x[base + j];
            ss = ss.plus(v.times(v));
            j = j + 1;
        }
        let scale = T::rms_scale(ss, n);
        let mut j: usize = 0;
        while j < n
            invariant
                x@.len() <= usize::MAX,
                j <= n,
                n == weight@.len(),
                n > 0,
                base == r * n,
                base + n <= x@.len(),
                x@.len() == len,
                scale == T::rms_scale_s(sum_sq(x0, base as int, n as int), n),
                forall|idx: int| 0 <= idx < base + j ==> #[trigger] x@[idx] == normed_inplace(x0, weight@, idx),
                forall|idx: int| base + j <= idx < len ==> #[trigger] x@[idx] == x0[idx],
            decreases n - j,
        {
            proof {
                lemma_row_index(r as int, n as int, j as int);
            }
            let v = x[base + j].times(weight[j].times(scale));
            x.set(base + j, v);
            j = j + 1;
        }
        proof {
            assert(base + n == (r + 1) * n) by (nonlinear_arith)
                requires base == r * n;
        }
        r = r + 1;
    }
}

pub proof fn lemma_row_in_bounds(r: int, rows: int, n: int)
    requires
        0 <= r < rows,
        n >= 0,
    ensures
        0 <= r * n,
        r * n + n <= rows * n,
{
    assert(r * n + n <= rows * n) by (nonlinear_arith)
        requires r < rows, n >= 0;
    assert(0 <= r * n) by (nonlinear_arith)
        requires r >= 0, n >= 0;
}

/// The largest of `x[start .. start + j]` (the first one seen on ties);
/// `x[start]` for an empty range.
pub open spec fn prefix_max<T: Real>(x: Seq<T>, start: int, j: int) -> T
    decreases j,
{
    if j <= 1 {
        x[start]
    } else {
        let m = prefix_max(x, start, j - 1);
        if x[start + j - 1].gt_s(m) { x[start + j - 1] } else { m }
    }
}

/// `sum_{t < j} e^(x[start + t] - mx)`, added up from `t = 0`.
pub open spec fn exp_sum<T: Real>(x: Seq<T>, start: int, mx: T, j: int) -> T
    decreases j,
{
    if j <= 0 {
        T::zero_s()
    } else {
        exp_sum(x, start, mx, j - 1).add_s(x[start + j - 1].sub_s(mx).exp_s())
    }
}

/// The softmax of element `idx` of `x[start .. start + valid]`.
pub open spec fn softmax_at<T: Real>(x: Seq<T>, start: int, valid: int, idx: int) -> T {
    let mx = prefix_max(x, start, valid);
    x[idx].sub_s(mx).exp_s().div_s(exp_sum(x, start, mx, valid))
}

/// Softmax over `x[start .. start + valid]`, made stable by subtracting the
/// largest entry, and `fill` written to `x[start + valid .. start + width]`.
/// An empty prefix only fills.
///
/// Nothing outside `x[start .. start + width]` changes.
pub fn causal_softmax<T: Real>(x: &mut Vec<T>, start: usize, valid: usize, width: usize, fill: T)
    requires
        valid <= width,
        start + width <= old(x)@.len(),
    ensures
        final(x)@.len() == old(x)@.len(),
        forall|idx: int|
            0 <= idx < old(x)@.len() && (idx < start || idx >= start + width) ==> #[trigger] final(x)@[idx]
                == old(x)@[idx],
        forall|idx: int|
            start <= idx < start + valid ==> #[trigger] final(x)@[idx] == softmax_at(
                old(x)@,
                start as int,
                valid as int,
                idx,
            ),
        forall|idx: int| start + valid <= idx < start + width ==> #[trigger] final(x)@[idx] == fill,
{
    let ghost x0 = x@;
    let _ = x.len();
    if valid > 0 {
        let mut max = x[start];
        let mut j: usize = 1;
        while j < valid
            invariant
                x@.len() <= usize::MAX,
                1 <= j <= valid,
                valid <= width,
                start + width <= x@.len(),
                x@ == x0,
                max == prefix_max(x0, start as int, j as int),
            decreases valid - j,
        {
            let v = x[start + j];
            if v.greater(max) {
                max = v;
            }
            j = j + 1;
        }
        let mut sum = T::zero();
        let mut j: usize = 0;
        while j < valid
            invariant
                x@.len() <= usize::MAX,
                j <= valid,
                valid <= width,
                start + width <= x@.len(),
                x@.len() == x0.len(),
                max == prefix_max(x0, start as int, valid as int),
                sum == exp_sum(x0, start as int, max, j as int),
                forall|idx: int|
                    0 <= idx < x0.len() && (idx < start || idx >= start + j) ==> #[trigger] x@[idx] == x0[idx],
                forall|idx: int|
                    start <= idx < start + j ==> #[trigger] x@[idx] == x0[idx].sub_s(max).exp_s(),
            decreases valid - j,
        {
            let e = x[start + j].minus(max).exp();
            x.set(start + j, e);
            sum = sum.plus(e);
            j = j + 1;
        }
        let mut j: usize = 0;
        while j < valid
            invariant
                x@.len() <= usize::MAX,
                j <= valid,
                valid <= width,
                start + width <= x@.len(),
                x@.len() == x0.len(),
                max == prefix_max(x0, start as int, valid as int),
                sum == exp_sum(x0, start as int, max, valid as int),
                forall|idx: int|
                    0 <= idx < x0.len() && (idx < start || idx >= start + valid) ==> #[trigger] x@[idx]
                        == x0[idx],
                forall|idx: int|
                    start + j <= idx < start + valid ==> #[trigger] x@[idx] == x0[idx].sub_s(max).exp_s(),
                forall|idx: int|
                    start <= idx < start + j ==> #[trigger] x@[idx] == softmax_at(
                        x0,
                        start as int,
                        valid as int,
                        idx,
                    ),
            decreases valid - j,
        {
            let v = x[start + j].divide(sum);
            x.set(start + j, v);
            j = j + 1;
        }
    }
    let mut j: usize = valid;
    while j < width
        invariant
            x@.len() <= usize::MAX,
            valid <= j <= width,
            start + width <= x@.len(),
            x@.len() == x0.len(),
            forall|idx: int|
                0 <= idx < x0.len() && (idx < start || idx >= start + width) ==> #[trigger] x@[idx]
                    == x0[idx],
            forall|idx: int|
                start <= idx < start + valid ==> #[trigger] x@[idx] == softmax_at(
                    x0,
                    start as int,
                    valid as int,
                    idx,
                ),
            forall|idx: int| start + valid <= idx < start + j ==> #[trigger] x@[idx] == fill,
        decreases width - j,
    {
        x.set(start + j, fill);
        j = j + 1;
    }
}

/// SwiGLU gating: `gate[i] := gate[i] * (sigmoid(gate[i]) * up[i])` for the
/// first `len` entries, with `up` read from `up_start` on in the same buffer.
pub fn swiglu<T: Real>(h: &mut Vec<T>, len: usize, up_start: usize)
    requires
        len <= up_start,
        up_start + len <= old(h)@.len(),
    ensures
        final(h)@.len() == old(h)@.len(),
        forall|idx: int| len <= idx < old(h)@.len() ==> #[trigger] final(h)@[idx] == old(h)@[idx],
        forall|idx: int|
            0 <= idx < len ==> #[trigger] final(h)@[idx] == old(h)@[idx].mul_s(
                old(h)@[idx].sigmoid_s().mul_s(old(h)@[up_start + idx]),
            ),
{
    let ghost h0 = h@;
    let _ = h.len();
    let mut i: usize = 0;
    while i < len
        invariant
            h@.len() <= usize::MAX,
            i <= len,
            len <= up_start,
            up_start + len <= h@.len(),
            h@.len() == h0.len(),
            forall|idx: int| i <= idx < h0.len() ==> #[trigger] h@[idx] == h0[idx],
            forall|idx: int|
                0 <= idx < i ==> #[trigger] h@[idx] == h0[idx].mul_s(h0[idx].sigmoid_s().mul_s(h0[up_start + idx])),
        decreases len - i,
    {
        let g = h[i];
        let v = g.times(g.sigmoid().times(h[up_start + i]));
        h.set(i, v);
        i = i + 1;
    }
}

} // verus!
