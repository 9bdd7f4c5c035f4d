use vstd::prelude::*;

verus! {

/// Why a buffer could not be laid out in the requested shape.
#[derive(Clone, Copy, Debug, PartialEq, Eq, Structural)]
pub enum LogError {
    /// The buffer holds fewer cells than the shape covers.
    ShortBuffer,
    /// The number of cells the shape covers does not fit in `usize`.
    ShapeTooLarge,
}

/// Decimal digits of `n`, most significant first.
pub open spec fn decimal(n: nat) -> Seq<u8>
    decreases n,
{
    if n < 10 {
        seq![(48 + n) as u8]
    } else {
        decimal(n / 10) + seq![(48 + n % 10) as u8]
    }
}

/// Cells `start .. start + k`, each followed by a space.
pub open spec fn cells_text(cells: Seq<Seq<u8>>, start: int, k: nat) -> Seq<u8>
    decreases k,
{
    if k == 0 {
        Seq::empty()
    } else {
        cells_text(cells, start, (k - 1) as nat) + cells[start + k - 1] + seq![32u8]
    }
}

/// `rows` lines of `cols` cells each, read row-major from `start`.
pub open spec fn matrix_text(cells: Seq<Seq<u8>>, start: int, rows: nat, cols: nat) -> Seq<u8>
    decreases rows,
{
    if rows == 0 {
        Seq::empty()
    } else {
        matrix_text(cells, start, (rows - 1) as nat, cols) + cells_text(
            cells,
            start + (rows - 1) * cols,
            cols,
        ) + seq![10u8]
    }
}

/// `<rows x cols>` as the header writes it.
pub open spec fn dims_text(rows: nat, cols: nat) -> Seq<u8> {
    seq![60u8] + decimal(rows) + seq![120u8] + decimal(cols) + seq![62u8]
}

/// The number of cells a shape covers: one for no axes.
pub open spec fn shape_count(shape: Seq<usize>) -> nat
    decreases shape.len(),
{
    if shape.len() == 0 {
        1
    } else {
        shape_count(shape.drop_last()) * shape.last() as nat
    }
}

/// The text `write_log` produces for shapes of at most two axes.
pub open spec fn flat_text(cells: Seq<Seq<u8>>, shape: Seq<usize>) -> Seq<u8> {
    if shape.len() == 0 {
        seq![60u8, 62u8, 10u8] + matrix_text(cells, 0, 1, 1)
    } else if shape.len() == 1 {
        seq![60u8] + decimal(shape[0] as nat) + seq![62u8, 10u8] + matrix_text(
            cells,
            0,
            shape[0] as nat,
            1,
        )
    } else {
        dims_text(shape[0] as nat, shape[1] as nat) + seq![10u8] + matrix_text(
            cells,
            0,
            shape[0] as nat,
            shape[1] as nat,
        )
    }
}

/// Appends the decimal digits of `n`.
pub fn push_decimal(to: &mut Vec<u8>, n: usize)
    ensures
        final(to)@ == old(to)@ + decimal(n as nat),
    decreases n,
{
    if n >= 10 {
        push_decimal(to, n / 10);
    }
    to.push((48 + n % 10) as u8);
    proof {
        if n < 10 {
            assert(n % 10 == n);
        }
    }
}

fn push_bytes(to: &mut Vec<u8>, b: &[u8])
    ensures
        final(to)@ == old(to)@ + b@,
{
    let ghost start = to@;
    let mut i: usize = 0;
    while i < b.len()
        invariant
            i <= b@.len(),
            to@ == start + b@.subrange(0, i as int),
        decreases b@.len() - i,
    {
        to.push(b[i]);
        proof {
            assert(b@.subrange(0, i + 1) == b@.subrange(0, i as int) + seq![b@[i as int]]);
        }
        i = i + 1;
    }
    proof {
        assert(b@.subrange(0, b@.len() as int) == b@);
    }
}

pub open spec fn cells_view(cells: &[Vec<u8>]) -> Seq<Seq<u8>> {
    Seq::new(cells@.len(), |i: int| cells@[i]@)
}

/// Writes `rows` lines of `cols` cells from `start` on, each cell followed
/// by a space.
pub fn write_matrix(to: &mut Vec<u8>, cells: &[Vec<u8>], start: usize, rows: usize, cols: usize)
    requires
        start + rows * cols <= cells@.len(),
    ensures
        final(to)@ == old(to)@ + matrix_text(cells_view(cells), start as int, rows as nat, cols as nat),
{
    let ghost cv = cells_view(cells);
    let ghost begin = to@;
    let _ = cells.len();
    let mut r: usize = 0;
    while r < rows
        invariant
            r <= rows,
            cells@.len() <= usize::MAX,
            start + rows * cols <= cells@.len(),
            cv == cells_view(cells),
            to@ == begin + matrix_text(cv, start as int, r as nat, cols as nat),
        decreases rows - r,
    {
        proof {
            assert(r * cols + cols <= rows * cols) by (nonlinear_arith)
                requires r < rows;
        }
        let base = start + r * cols;
        let ghost row_begin = to@;
        let mut j: usize = 0;
        while j < cols
            invariant
                j <= cols,
                base + cols <= cells@.len(),
                cells@.len() <= usize::MAX,
                cv == cells_view(cells),
                to@ == row_begin + cells_text(cv, base as int, j as nat),
            decreases cols - j,
        {
            push_bytes(to, cells[base + j].as_slice());
            to.push(32u8);
            proof {
                assert(cv[base + j] == cells@[base + j]@);
                assert(to@ == row_begin + cells_text(cv, base as int, (j + 1) as nat));
            }
            j = j + 1;
        }
        to.push(10u8);
        proof {
            assert((r + 1 - 1) * cols == r * cols);
            assert(to@ == begin + matrix_text(cv, start as int, (r + 1) as nat, cols as nat));
        }
        r = r + 1;
    }
}

/// Lays out `cells` in `shape` as text: a header naming the shape, then one
/// line per row. With more than two axes each leading index gets its own
/// header, `<rows x cols>[i, j, ...]`, and matrix.
///
/// Refused, with nothing written, when the buffer holds fewer cells than
/// the shape covers.
pub fn write_log(to: &mut Vec<u8>, cells: &[Vec<u8>], shape: &[usize]) -> (r: Result<(), LogError>)
    ensures
        shape_count(shape@) <= usize::MAX ==> (r is Ok <==> shape_count(shape@) <= cells@.len()),
        r is Err ==> final(to)@ == old(to)@,
        r is Ok && shape@.len() <= 2 ==> final(to)@ == old(to)@ + flat_text(cells_view(cells), shape@),
        r is Ok && shape@.len() > 2 && shape_count(shape@.subrange(0, shape@.len() - 2)) <= usize::MAX
            ==> final(to)@ == old(to)@ + batched_text(cells_view(cells), shape@),
        r is Ok ==> final(to)@.len() >= old(to)@.len() && final(to)@.subrange(0, old(to)@.len() as int)
            == old(to)@,
{
    let total = match count_cells(shape) {
        Some(t) => t,
        None => return Err(LogError::ShapeTooLarge),
    };
    if cells.len() < total {
        return Err(LogError::ShortBuffer);
    }
    let ghost begin = to@;
    let n = shape.len();
    if n == 0 {
        to.push(60u8);
        to.push(62u8);
        to.push(10u8);
        write_matrix(to, cells, 0, 1, 1);
        proof {
            assert(to@ == begin + flat_text(cells_view(cells), shape@));
        }
    } else if n == 1 {
        to.push(60u8);
        push_decimal(to, shape[0]);
        to.push(62u8);
        to.push(10u8);
        proof {
            assert(shape_count(shape@) == shape[0] as nat) by {
                reveal_with_fuel(shape_count, 2);
                assert(shape@.drop_last().len() == 0);
                assert(shape_count(shape@.drop_last()) == 1);
            }
        }
        write_matrix(to, cells, 0, shape[0], 1);
        proof {
            assert(to@ == begin + flat_text(cells_view(cells), shape@));
        }
    } else {
        let rows = shape[n - 2];
        let cols = shape[n - 1];
        if n == 2 {
            proof {
                lemma_two_axes(shape@);
            }
            write_dims(to, rows, cols);
            to.push(10u8);
            write_matrix(to, cells, 0, rows, cols);
            proof {
                assert(to@ == begin + flat_text(cells_view(cells), shape@));
            }
        } else {
            write_blocks(to, cells, shape, rows, cols, total);
        }
    }
    Ok(())
}

proof fn lemma_two_axes(shape: Seq<usize>)
    requires
        shape.len() == 2,
    ensures
        shape_count(shape) == shape[0] as nat * shape[1] as nat,
{
    let s1 = shape.drop_last();
    assert(s1.len() == 1);
    assert(s1.drop_last().len() == 0);
    assert(shape_count(s1.drop_last()) == 1);
    assert(shape_count(s1) == shape_count(s1.drop_last()) * (s1.last() as nat));
    assert(s1.last() == shape[0]);
    assert(shape_count(s1) == shape[0] as nat);
}

fn write_dims(to: &mut Vec<u8>, rows: usize, cols: usize)
    ensures
        final(to)@ == old(to)@ + dims_text(rows as nat, cols as nat),
{
    to.push(60u8);
    push_decimal(to, rows);
    to.push(120u8);
    push_decimal(to, cols);
    to.push(62u8);
}

/// The number of cells `shape` covers, or `None` when it exceeds `usize`.
fn count_cells(shape: &[usize]) -> (r: Option<usize>)
    ensures
        shape_count(shape@) <= usize::MAX ==> r == Some(shape_count(shape@) as usize),
        shape_count(shape@) > usize::MAX ==> r is None,
{
    let mut i: usize = 0;
    while i < shape.len()
        invariant
            i <= shape@.len(),
            forall|j: int| 0 <= j < i ==> shape@[j] != 0,
        decreases shape@.len() - i,
    {
        if shape[i] == 0 {
            proof {
                lemma_count_zero(shape@, i as int);
            }
            return Some(0);
        }
        i = i + 1;
    }
    let mut acc: usize = 1;
    let mut i: usize = 0;
    while i < shape.len()
        invariant
            i <= shape@.len(),
            forall|j: int| 0 <= j < shape@.len() ==> shape@[j] != 0,
            acc == shape_count(shape@.subrange(0, i as int)),
        decreases shape@.len() - i,
    {
        proof {
            assert(shape@.subrange(0, i + 1).drop_last() == shape@.subrange(0, i as int));
        }
        match acc.checked_mul(shape[i]) {
            Some(p) => acc = p,
            None => {
                proof {
                    lemma_count_grows(shape@, i + 1);
                }
                return None;
            },
        }
        i = i + 1;
    }
    proof {
        assert(shape@.subrange(0, shape@.len() as int) == shape@);
    }
    Some(acc)
}

/// A zero axis makes the count zero.
proof fn lemma_count_zero(shape: Seq<usize>, i: int)
    requires
        0 <= i < shape.len(),
        shape[i] == 0,
    ensures
        shape_count(shape) == 0,
    decreases shape.len(),
{
    if i == shape.len() - 1 {
        assert(shape_count(shape) == shape_count(shape.drop_last()) * 0);
    } else {
        lemma_count_zero(shape.drop_last(), i);
        assert(shape_count(shape) == 0 * shape.last() as nat);
    }
}

/// With no zero axis, a prefix covers at most as many cells as the whole.
proof fn lemma_count_grows(shape: Seq<usize>, k: int)
    requires
        0 <= k <= shape.len(),
        forall|j: int| 0 <= j < shape.len() ==> shape[j] != 0,
    ensures
        shape_count(shape.subrange(0, k)) <= shape_count(shape),
    decreases shape.len() - k,
{
    if k < shape.len() {
        let next = shape.subrange(0, k + 1);
        assert(next.drop_last() == shape.subrange(0, k));
        let c = shape_count(shape.subrange(0, k));
        let d = shape[k] as nat;
        assert(c <= c * d) by (nonlinear_arith)
            requires d >= 1;
        lemma_count_grows(shape, k + 1);
    } else {
        assert(shape.subrange(0, k) == shape);
    }
}

/// The product of `b[j..]`: how many blocks one step of axis `j - 1` spans.
pub open spec fn suffix_count(b: Seq<usize>, j: int) -> nat
    decreases b.len() - j,
{
    if j < 0 || j >= b.len() {
        1
    } else {
        b[j] as nat * suffix_count(b, j + 1)
    }
}

/// The digits of block number `rem` along axes `t..` of `b`, separated by
/// `", "`.
pub open spec fn index_text(rem: nat, b: Seq<usize>, t: int) -> Seq<u8>
    decreases b.len() - t,
{
    if t < 0 || t >= b.len() {
        Seq::empty()
    } else {
        let s = suffix_count(b, t + 1);
        let sep = if t > 0 { seq![44u8, 32u8] } else { Seq::<u8>::empty() };
        let digit = if s == 0 { 0 } else { rem / s };
        let next = if s == 0 { rem } else { rem % s };
        sep + decimal(digit) + index_text(next, b, t + 1)
    }
}

/// `<rows x cols>[i0, i1, ...]` and a line break.
pub open spec fn block_header(rows: nat, cols: nat, b: Seq<usize>, i: nat) -> Seq<u8> {
    dims_text(rows, cols) + seq![91u8] + index_text(i, b, 0) + seq![93u8, 10u8]
}

/// The first `i` blocks: header and matrix each.
pub open spec fn blocks_text(cells: Seq<Seq<u8>>, b: Seq<usize>, rows: nat, cols: nat, i: nat) -> Seq<u8>
    decreases i,
{
    if i == 0 {
        Seq::empty()
    } else {
        blocks_text(cells, b, rows, cols, (i - 1) as nat) + block_header(rows, cols, b, (i - 1) as nat)
            + matrix_text(cells, (i - 1) * (rows * cols), rows, cols)
    }
}

/// The text `write_log` produces for shapes of more than two axes.
pub open spec fn batched_text(cells: Seq<Seq<u8>>, shape: Seq<usize>) -> Seq<u8> {
    let k = shape.len() - 2;
    let b = shape.subrange(0, k);
    blocks_text(cells, b, shape[k] as nat, shape[k + 1] as nat, shape_count(b))
}

proof fn lemma_suffix_drop_last(s: Seq<usize>, j: int)
    requires
        0 <= j < s.len(),
    ensures
        suffix_count(s, j) == suffix_count(s.drop_last(), j) * (s.last() as nat),
    decreases s.len() - j,
{
    let dl = s.drop_last();
    if j == s.len() - 1 {
        assert(suffix_count(s, j + 1) == 1);
        assert(suffix_count(dl, j) == 1);
        assert(suffix_count(s, j) == s[j] as nat * 1);
        assert(s[j] == s.last());
    } else {
        lemma_suffix_drop_last(s, j + 1);
        let a = s[j] as nat;
        let x = suffix_count(dl, j + 1);
        let l = s.last() as nat;
        assert(dl[j] == s[j]);
        assert(suffix_count(s, j) == a * suffix_count(s, j + 1));
        assert(suffix_count(s, j + 1) == x * l);
        assert(suffix_count(dl, j) == a * x);
        assert(a * (x * l) == (a * x) * l) by (nonlinear_arith);
    }
}

proof fn lemma_suffix_is_count(s: Seq<usize>)
    ensures
        suffix_count(s, 0) == shape_count(s),
    decreases s.len(),
{
    if s.len() > 0 {
        lemma_suffix_is_count(s.drop_last());
        lemma_suffix_drop_last(s, 0);
    }
}

/// With a non-zero product, every later suffix is non-zero and no larger.
proof fn lemma_suffix_bounded(b: Seq<usize>, j: int, t: int)
    requires
        0 <= j <= t <= b.len(),
        suffix_count(b, j) > 0,
    ensures
        0 < suffix_count(b, t) <= suffix_count(b, j),
    decreases t - j,
{
    if j < t {
        let x = b[j] as nat;
        let y = suffix_count(b, j + 1);
        assert(x * y > 0);
        assert(x >= 1 && y >= 1) by (nonlinear_arith)
            requires x * y > 0, x >= 0, y >= 0;
        assert(y <= x * y) by (nonlinear_arith)
            requires x >= 1, y >= 0;
        lemma_suffix_bounded(b, j + 1, t);
    }
}

/// Appends the digits of block `i` along all leading axes.
fn write_index(to: &mut Vec<u8>, i: usize, batch: &[usize], strides: &Vec<usize>)
    requires
        strides@.len() == batch@.len(),
        forall|t: int| 0 <= t < batch@.len() ==> #[trigger] strides@[t] == suffix_count(batch@, t + 1),
    ensures
        final(to)@ == old(to)@ + index_text(i as nat, batch@, 0),
{
    let ghost goal = old(to)@ + index_text(i as nat, batch@, 0);
    let k = strides.len();
    let mut rem = i;
    let mut t: usize = 0;
    while t < k
        invariant
            t <= k,
            k == batch@.len(),
            strides@.len() == k,
            forall|u: int| 0 <= u < batch@.len() ==> #[trigger] strides@[u] == suffix_count(batch@, u + 1),
            to@ + index_text(rem as nat, batch@, t as int) == goal,
        decreases k - t,
    {
        let ghost before = to@;
        if t > 0 {
            to.push(44u8);
            to.push(32u8);
        }
        let stride = strides[t];
        let ghost r0 = rem;
        if stride == 0 {
            push_decimal(to, 0);
        } else {
            push_decimal(to, rem / stride);
            rem = rem % stride;
        }
        proof {
            let sep = if t > 0 { seq![44u8, 32u8] } else { Seq::<u8>::empty() };
            assert(to@ == before + sep + decimal(if stride == 0 { 0 } else { (r0 / stride) as nat }));
            assert(index_text(r0 as nat, batch@, t as int) == sep + decimal(
                if stride == 0 { 0 } else { (r0 / stride) as nat },
            ) + index_text(rem as nat, batch@, t + 1));
            assert(to@ + index_text(rem as nat, batch@, t + 1) =~= before + index_text(r0 as nat, batch@, t as int));
        }
        t = t + 1;
    }
    assert(index_text(rem as nat, batch@, k as int) =~= Seq::<u8>::empty());
}

/// One header and matrix per leading index, in row-major order of the
/// leading axes.
fn write_blocks(to: &mut Vec<u8>, cells: &[Vec<u8>], shape: &[usize], rows: usize, cols: usize, total: usize)
    requires
        shape@.len() > 2,
        rows == shape@[shape@.len() - 2],
        cols == shape@[shape@.len() - 1],
        total == shape_count(shape@),
        total <= cells@.len(),
    ensures
        final(to)@.len() >= old(to)@.len(),
        final(to)@.subrange(0, old(to)@.len() as int) == old(to)@,
        shape_count(shape@.subrange(0, shape@.len() - 2)) <= usize::MAX ==> final(to)@ == old(to)@
            + batched_text(cells_view(cells), shape@),
{
    let ghost begin = to@;
    let ghost cv = cells_view(cells);
    let n = shape.len();
    let k = n - 2;
    let batch = &shape[0..k];
    let blocks = match count_cells(batch) {
        Some(b) => b,
        None => return,
    };
    proof {
        assert(shape@.drop_last().drop_last() == batch@);
        assert(shape@.drop_last().last() == rows);
        assert(shape_count(shape@) == shape_count(shape@.drop_last()) * (cols as nat));
        assert(shape_count(shape@.drop_last()) == shape_count(batch@) * (rows as nat));
        assert(total == blocks * rows * cols);
        lemma_suffix_is_count(batch@);
        assert(blocks_text(cv, batch@, rows as nat, cols as nat, 0) =~= Seq::<u8>::empty());
    }
    if blocks == 0 {
        return;
    }
    let mut strides: Vec<usize> = vec![1usize; k];
    let mut j: usize = k - 1;
    proof {
        assert(suffix_count(batch@, k as int) == 1);
    }
    while j > 0
        invariant
            0 <= j < k,
            strides@.len() == k,
            batch@.len() == k,
            blocks == suffix_count(batch@, 0),
            blocks > 0,
            blocks <= usize::MAX,
            forall|t: int| j <= t < k ==> #[trigger] strides@[t] == suffix_count(batch@, t + 1),
        decreases j,
    {
        proof {
            lemma_suffix_bounded(batch@, 0, j as int);
            assert(suffix_count(batch@, j as int) == batch@[j as int] as nat * suffix_count(batch@, j + 1));
        }
        let v = batch[j] * strides[j];
        strides.set(j - 1, v);
        j = j - 1;
    }
    let mut i: usize = 0;
    while i < blocks
        invariant
            i <= blocks,
            total == blocks * rows * cols,
            total <= cells@.len(),
            strides@.len() == k,
            batch@.len() == k,
            cv == cells_view(cells),
            forall|t: int| 0 <= t < k ==> #[trigger] strides@[t] == suffix_count(batch@, t + 1),
            to@ == begin + blocks_text(cv, batch@, rows as nat, cols as nat, i as nat),
        decreases blocks - i,
    {
        write_dims(to, rows, cols);
        to.push(91u8);
        write_index(to, i, batch, &strides);
        to.push(93u8);
        to.push(10u8);
        proof {
            assert((i + 1) * (rows * cols) <= blocks * (rows * cols)) by (nonlinear_arith)
                requires i < blocks;
            assert(i * (rows * cols) + rows * cols == (i + 1) * (rows * cols)) by (nonlinear_arith);
            assert(blocks * rows * cols == blocks * (rows * cols)) by (nonlinear_arith);
            assert(i * (rows * cols) >= 0) by (nonlinear_arith)
                requires i >= 0;
        }
        write_matrix(to, cells, i * (rows * cols), rows, cols);
        proof {
            assert(to@ =~= begin + blocks_text(cv, batch@, rows as nat, cols as nat, (i + 1) as nat));
        }
        i = i + 1;
    }
    proof {
        assert(shape@[k as int] == rows && shape@[k + 1] == cols);
        assert(shape@.subrange(0, k as int) == batch@);
    }
}

} // verus!
