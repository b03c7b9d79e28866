use vstd::prelude::*;
use vstd::arithmetic::div_mod::lemma_fundamental_div_mod_converse;
use crate::layers::{
    Conv, ConvMapping, InfoView, InfoWrapper, LayerWrapper, conv_input_positions, conv_map_ok,
    layer_info, layer_info_ok, layer_output_shape, layer_output_shape_ok, lemma_flat_index,
    rows_equal, triple, window_len,
};
use crate::num::{div_i32, fits_i32, trunc_div};

verus! {

/// Product of the entries of a shape, multiplied from the left starting at one.
pub open spec fn shape_product(s: Seq<i32>) -> int
    decreases s.len(),
{
    if s.len() == 0 {
        1
    } else {
        shape_product(s.drop_last()) * s.last()
    }
}

/// Every partial product of the shape, from the left, fits an `i32`.
pub open spec fn shape_product_fits(s: Seq<i32>) -> bool {
    forall|n: int| 0 <= n <= s.len() ==> fits_i32(#[trigger] shape_product(s.take(n)))
}

/// The number of elements of a tensor of the given shape.
pub fn output_count(shape: &Vec<i32>) -> (r: i32)
    requires
        shape_product_fits(shape@),
    ensures
        r == shape_product(shape@),
{
    let mut acc: i32 = 1;
    let mut i: usize = 0;
    proof {
        assert(shape@.take(0) =~= Seq::<i32>::empty());
    }
    while i < shape.len()
        invariant
            shape_product_fits(shape@),
            0 <= i <= shape@.len(),
            acc == shape_product(shape@.take(i as int)),
        decreases shape@.len() - i,
    {
        proof {
            assert(shape@.take(i + 1).drop_last() =~= shape@.take(i as int));
            assert(fits_i32(shape_product(shape@.take(i + 1))));
        }
        acc = acc * shape[i];
        i = i + 1;
    }
    proof {
        assert(shape@.take(shape@.len() as int) =~= shape@);
    }
    acc
}

/// `a / b` rounded up (`b` is not zero).
pub open spec fn ceil_quotient(a: int, b: int) -> int {
    if b > 0 {
        -((-a) / b)
    } else {
        -(a / (-b))
    }
}

/// The number of outputs each worker computes: the output count divided by
/// the number of workers, rounded up, as the division of the two numbers as
/// `f64` followed by a saturating conversion to `i32` gives it (no workers
/// gives `i32::MAX`, `i32::MIN` or zero, by the sign of the output count).
pub open spec fn outputs_per_worker(oc: int, total: int) -> int {
    if total == 0 {
        if oc > 0 {
            i32::MAX as int
        } else if oc < 0 {
            i32::MIN as int
        } else {
            0
        }
    } else {
        let q = ceil_quotient(oc, total);
        if q > i32::MAX {
            i32::MAX as int
        } else if q < i32::MIN {
            i32::MIN as int
        } else {
            q
        }
    }
}

fn ceil_quotient_nonneg_divisor(a: i64, b: i64) -> (q: i64)
    requires
        b > 0,
        -0x1_0000_0000 <= a <= 0x1_0000_0000,
        b <= 0x1_0000_0000,
    ensures
        q as int == -((-(a as int)) / (b as int)),
{
    if a >= 0 {
        let q = (a + b - 1) / b;
        assert(q as int == -((-(a as int)) / (b as int))) by (nonlinear_arith)
            requires
                a >= 0,
                b > 0,
                q as int == (a + b - 1) as int / (b as int),
        {
            vstd::arithmetic::div_mod::lemma_fundamental_div_mod((a + b - 1) as int, b as int);
            vstd::arithmetic::div_mod::lemma_fundamental_div_mod(-(a as int), b as int);
        }
        q
    } else {
        -((-a) / b)
    }
}

/// The number of outputs each worker computes (see `outputs_per_worker`).
pub fn num_per_cpu(oc: i32, total_cpu_count: i32) -> (r: i32)
    ensures
        r == outputs_per_worker(oc as int, total_cpu_count as int),
{
    if total_cpu_count == 0 {
        if oc > 0 {
            i32::MAX
        } else if oc < 0 {
            i32::MIN
        } else {
            0
        }
    } else {
        let q: i64 = if total_cpu_count > 0 {
            ceil_quotient_nonneg_divisor(oc as i64, total_cpu_count as i64)
        } else {
            ceil_quotient_nonneg_divisor(-(oc as i64), -(total_cpu_count as i64))
        };
        proof {
            if total_cpu_count < 0 {
                assert(-(-(oc as int)) == oc as int);
            }
        }
        if q > i32::MAX as i64 {
            i32::MAX
        } else if q < i32::MIN as i64 {
            i32::MIN
        } else {
            q as i32
        }
    }
}


/// The worker that the `c`-th output goes to, when workers take `num`
/// outputs each: the counter moves on by one whenever `c / num` (rounded
/// toward zero) differs from it, which for a negative `num` is at every
/// output from `-num` on.
pub open spec fn worker_at(c: int, num: int) -> int {
    if num > 0 {
        c / num
    } else if c < -num {
        0
    } else {
        c + num + 1
    }
}

/// The worker counter before output `c` (that of output `c - 1`, or zero).
pub open spec fn worker_before(c: int, num: int) -> int {
    if c == 0 {
        0
    } else {
        worker_at(c - 1, num)
    }
}

pub(crate) proof fn lemma_worker_step(c: int, num: int)
    requires
        c >= 0,
        num != 0,
    ensures
        trunc_div(c, num) != worker_before(c, num) ==> worker_at(c, num) == worker_before(c, num) + 1,
        trunc_div(c, num) == worker_before(c, num) ==> worker_at(c, num) == worker_before(c, num),
        worker_at(c, num) >= worker_before(c, num),
        worker_at(c, num) >= 0,
{
    if num > 0 {
        if c > 0 {
            assert((c - 1) / num <= c / num <= (c - 1) / num + 1) by (nonlinear_arith)
                requires
                    c > 0,
                    num > 0,
            {
                vstd::arithmetic::div_mod::lemma_fundamental_div_mod(c, num);
                vstd::arithmetic::div_mod::lemma_fundamental_div_mod(c - 1, num);
            }
        }
    } else {
        assert(crate::num::abs(c) == c && crate::num::abs(num) == -num);
        if c < -num {
            vstd::arithmetic::div_mod::lemma_basic_div(c, -num);
        }
        assert(trunc_div(c, num) == -(c / (-num)));
        if c < -num {
        } else {
            assert(c / (-num) >= 1) by (nonlinear_arith)
                requires
                    c >= -num,
                    -num > 0,
            {
                vstd::arithmetic::div_mod::lemma_fundamental_div_mod(c, -num);
            }
        }
    }
}

/// Number of outputs of a convolution (zero when a dimension is not positive).
pub open spec fn n_outputs(m: ConvMapping) -> int {
    if m.o.0 > 0 && m.o.1 > 0 && m.o.2 > 0 {
        m.o.0 * m.o.1 * m.o.2
    } else {
        0
    }
}

/// The output position (channel, row, column) of the `t`-th output, in
/// row-major order.
pub open spec fn out_position(m: ConvMapping, t: int) -> Seq<i32> {
    let o1 = m.o.1 as int;
    let o2 = m.o.2 as int;
    seq![(t / (o1 * o2)) as i32, ((t / o2) % o1) as i32, (t % o2) as i32]
}

/// Number of input positions that each output of the convolution reads.
pub open spec fn reads_per_output(m: ConvMapping) -> int {
    let groups = if m.i_pg > 0 { m.i_pg as int } else { 0 };
    groups * window_len(m.k.0 as int) * window_len(m.k.1 as int)
}

/// Zero padding rows (or columns) added around the input: the kernel size
/// read as `u16`, halved and doubled.
pub open spec fn padding_number(k: i32) -> int {
    ((k as u16) as int / 2) * 2
}

/// The `q`-th read of the convolution: read `q % P` of output `q / P`,
/// where `P` is `reads_per_output`.
pub open spec fn read_position(m: ConvMapping, q: int) -> Seq<i32> {
    let p = reads_per_output(m);
    conv_input_positions(m, out_position(m, q / p))[q % p]
}

/// The cell of the padded input that the `q`-th read touches.
pub open spec fn read_cell(m: ConvMapping, q: int) -> (int, int, int) {
    let pos = read_position(m, q);
    (
        pos[0] as int,
        pos[1] + padding_number(m.k.0) / 2,
        pos[2] + padding_number(m.k.1) / 2,
    )
}

/// Whether the cell at padded row `b`, column `c` is padding, for an input
/// of `rows` × `cols`.
pub open spec fn padding_cell(m: ConvMapping, rows: int, cols: int, b: int, c: int) -> bool {
    ||| (b > rows || b == 0) && padding_number(m.k.0) != 0
    ||| (c > cols || c == 0) && padding_number(m.k.1) != 0
}

/// What the `q`-th read marks in its cell: the bit of its worker, and the
/// top bit when the cell is padding.
pub open spec fn read_code(m: ConvMapping, shape: Seq<usize>, num: int, q: int) -> u16 {
    let cell = read_cell(m, q);
    let bit = (1u16 << (worker_at(q / reads_per_output(m), num) as u16)) as u16;
    if padding_cell(m, shape[1] as int, shape[2] as int, cell.1, cell.2) {
        (bit | 0x8000u16) as u16
    } else {
        bit
    }
}

/// The code of a cell after the first `n` reads: the bitwise or of the
/// codes of the reads among them that touch it.
#[verifier::opaque]
pub open spec fn cell_code(m: ConvMapping, shape: Seq<usize>, num: int, n: int, cell: (int, int, int)) -> u16
    decreases n,
{
    if n <= 0 {
        0
    } else {
        let prev = cell_code(m, shape, num, n - 1, cell);
        if read_cell(m, n - 1) == cell {
            (prev | read_code(m, shape, num, n - 1)) as u16
        } else {
            prev
        }
    }
}

/// The inputs on which `get_input_mapping` of a convolution neither panics
/// nor overflows: every read falls inside the padded input, and there are
/// at most sixteen workers to mark.
pub open spec fn conv_mapping_ok(m: ConvMapping, shape: Seq<usize>, total: int) -> bool {
    conv_reads_ok(m, shape, outputs_per_worker(m.o.0 * m.o.1 * m.o.2, total))
}

/// `conv_mapping_ok` for a given number `num` of outputs per worker.
pub open spec fn conv_reads_ok(m: ConvMapping, shape: Seq<usize>, num: int) -> bool {
    let n = n_outputs(m);
    let p = reads_per_output(m);
    let rows = shape[1] + padding_number(m.k.0);
    let cols = shape[2] + padding_number(m.k.1);
    &&& shape.len() >= 3
    &&& rows <= usize::MAX
    &&& cols <= usize::MAX
    &&& shape[0] * rows * cols <= usize::MAX
    &&& n > 0 ==> num != 0
    &&& forall|t: int|
        0 <= t < n ==> {
            &&& #[trigger] worker_at(t, num) < 16
            &&& conv_map_ok(m, out_position(m, t))
        }
    &&& forall|q: int|
        0 <= q < n * p ==> {
            let pos = #[trigger] read_position(m, q);
            &&& 0 <= pos[0] < shape[0]
            &&& fits_i32(pos[1] + padding_number(m.k.0) / 2)
            &&& fits_i32(pos[2] + padding_number(m.k.1) / 2)
            &&& 0 <= pos[1] + padding_number(m.k.0) / 2 < rows
            &&& 0 <= pos[2] + padding_number(m.k.1) / 2 < cols
        }
}


/// Row `a`, column `b`, depth `c` of a flat index into a `_ × rows × cols` box.
pub open spec fn unflatten(f: int, rows: int, cols: int) -> (int, int, int) {
    (f / (rows * cols), (f / cols) % rows, f % cols)
}

proof fn lemma_unflatten(f: int, rows: int, cols: int)
    requires
        f >= 0,
        rows > 0,
        cols > 0,
    ensures
        f == (unflatten(f, rows, cols).0 * rows + unflatten(f, rows, cols).1) * cols + unflatten(f, rows, cols).2,
        0 <= unflatten(f, rows, cols).1 < rows,
        0 <= unflatten(f, rows, cols).2 < cols,
        unflatten(f, rows, cols).0 >= 0,
{
    vstd::arithmetic::div_mod::lemma_fundamental_div_mod(f, cols);
    vstd::arithmetic::div_mod::lemma_fundamental_div_mod(f / cols, rows);
    vstd::arithmetic::div_mod::lemma_div_denominator(f, cols, rows);
    vstd::arithmetic::div_mod::lemma_mod_pos_bound(f, cols);
    vstd::arithmetic::div_mod::lemma_mod_pos_bound(f / cols, rows);
    vstd::arithmetic::div_mod::lemma_div_pos_is_pos(f, cols);
    vstd::arithmetic::div_mod::lemma_div_pos_is_pos(f / cols, rows);
    assert(cols * rows == rows * cols) by (nonlinear_arith);
    let q = f / (rows * cols);
    let r1 = (f / cols) % rows;
    let r2 = f % cols;
    assert(f == (q * rows + r1) * cols + r2) by (nonlinear_arith)
        requires
            f == cols * (f / cols) + r2,
            f / cols == rows * ((f / cols) / rows) + r1,
            (f / cols) / rows == q,
    ;
}

/// `mapping` is the read map of the convolution `m`: one cell per position
/// of the input padded with `padding_number` rows and columns, holding the
/// bitwise or of the codes of all the reads of the convolution's outputs
/// that touch it (`cell_code`).
pub open spec fn mapping_matches(mapping: Seq<Vec<Vec<u16>>>, m: ConvMapping, shape: Seq<usize>, num: int) -> bool {
    let rows = shape[1] + padding_number(m.k.0);
    let cols = shape[2] + padding_number(m.k.1);
    let n = n_outputs(m) * reads_per_output(m);
    &&& mapping.len() == shape[0]
    &&& forall|a: int| 0 <= a < shape[0] ==> (#[trigger] mapping[a])@.len() == rows
    &&& forall|a: int, b: int| 0 <= a < shape[0] && 0 <= b < rows ==> (#[trigger] mapping[a]@[b])@.len() == cols
    &&& forall|a: int, b: int, c: int|
        0 <= a < shape[0] && 0 <= b < rows && 0 <= c < cols ==> #[trigger] mapping[a]@[b]@[c] == cell_code(
            m,
            shape,
            num,
            n,
            (a, b, c),
        )
}

proof fn lemma_or_assoc(x: u16, bit: u16)
    by (bit_vector)
    ensures
        ((x | bit) | 0x8000u16) == (x | ((bit | 0x8000u16) as u16)),
{
}

fn unflatten_mapping(flat: &Vec<u16>, depth: usize, rows: usize, cols: usize) -> (mapping: Vec<Vec<Vec<u16>>>)
    requires
        flat@.len() == depth * rows * cols,
    ensures
        mapping@.len() == depth,
        forall|a: int| 0 <= a < depth ==> (#[trigger] mapping@[a])@.len() == rows,
        forall|a: int, b: int| 0 <= a < depth && 0 <= b < rows ==> (#[trigger] mapping@[a]@[b])@.len() == cols,
        forall|a: int, b: int, c: int|
            0 <= a < depth && 0 <= b < rows && 0 <= c < cols ==> #[trigger] mapping@[a]@[b]@[c]
                == flat@[(a * rows + b) * cols + c],
{
    let mut mapping: Vec<Vec<Vec<u16>>> = Vec::new();
    let mut a: usize = 0;
    while a < depth
        invariant
            flat@.len() == depth * rows * cols,
            0 <= a <= depth,
            mapping@.len() == a,
            forall|a2: int| 0 <= a2 < a ==> (#[trigger] mapping@[a2])@.len() == rows,
            forall|a2: int, b: int| 0 <= a2 < a && 0 <= b < rows ==> (#[trigger] mapping@[a2]@[b])@.len() == cols,
            forall|a2: int, b: int, c: int|
                0 <= a2 < a && 0 <= b < rows && 0 <= c < cols ==> #[trigger] mapping@[a2]@[b]@[c]
                    == flat@[(a2 * rows + b) * cols + c],
        decreases depth - a,
    {
        let mut plane: Vec<Vec<u16>> = Vec::new();
        let mut b: usize = 0;
        while b < rows
            invariant
                flat@.len() == depth * rows * cols,
                0 <= a < depth,
                0 <= b <= rows,
                plane@.len() == b,
                forall|b2: int| 0 <= b2 < b ==> (#[trigger] plane@[b2])@.len() == cols,
                forall|b2: int, c: int|
                    0 <= b2 < b && 0 <= c < cols ==> #[trigger] plane@[b2]@[c] == flat@[(a * rows + b2) * cols + c],
            decreases rows - b,
        {
            let mut row: Vec<u16> = Vec::new();
            let mut c: usize = 0;
            while c < cols
                invariant
                    flat@.len() == depth * rows * cols,
                    0 <= a < depth,
                    0 <= b < rows,
                    0 <= c <= cols,
                    row@.len() == c,
                    forall|c2: int| 0 <= c2 < c ==> #[trigger] row@[c2] == flat@[(a * rows + b) * cols + c2],
                decreases cols - c,
            {
                let len = flat.len();
                assert(a * rows + b < depth * rows && (a * rows + b) * cols + c < depth * rows * cols)
                    by (nonlinear_arith)
                    requires
                        a < depth,
                        b < rows,
                        c < cols,
                ;
                assert(depth * rows <= depth * rows * cols) by (nonlinear_arith)
                    requires
                        cols > 0,
                ;
                row.push(flat[(a * rows + b) * cols + c]);
                c = c + 1;
            }
            plane.push(row);
            b = b + 1;
        }
        mapping.push(plane);
        a = a + 1;
    }
    mapping
}


proof fn lemma_cell_code_step(m: ConvMapping, shape: Seq<usize>, num: int, n: int, cell: (int, int, int))
    requires
        n >= 0,
    ensures
        read_cell(m, n) != cell ==> cell_code(m, shape, num, n + 1, cell) == cell_code(m, shape, num, n, cell),
        read_cell(m, n) == cell ==> cell_code(m, shape, num, n + 1, cell) == (cell_code(m, shape, num, n, cell)
            | read_code(m, shape, num, n)) as u16,
{
    reveal(cell_code);
}

proof fn lemma_cell_code_zero(m: ConvMapping, shape: Seq<usize>, num: int, cell: (int, int, int))
    ensures
        cell_code(m, shape, num, 0, cell) == 0,
{
    reveal(cell_code);
}

/// The flat vector holds, for each cell of a `_ × rows × cols` box, its code
/// after the first `n` reads.
pub open spec fn flat_matches(
    flat: Seq<u16>,
    m: ConvMapping,
    shape: Seq<usize>,
    num: int,
    n: int,
    rows: int,
    cols: int,
) -> bool {
    forall|f: int|
        0 <= f < flat.len() ==> #[trigger] flat[f] == cell_code(m, shape, num, n, unflatten(f, rows, cols))
}

proof fn lemma_flat_step(
    old: Seq<u16>,
    new: Seq<u16>,
    idx: int,
    v: u16,
    m: ConvMapping,
    shape: Seq<usize>,
    num: int,
    q: int,
    rows: int,
    cols: int,
)
    requires
        q >= 0,
        flat_matches(old, m, shape, num, q, rows, cols),
        0 <= read_cell(m, q).0,
        0 <= read_cell(m, q).1 < rows,
        0 <= read_cell(m, q).2 < cols,
        idx == (read_cell(m, q).0 * rows + read_cell(m, q).1) * cols + read_cell(m, q).2,
        0 <= idx < old.len(),
        v == (old[idx] | read_code(m, shape, num, q)) as u16,
        new == old.update(idx, v),
    ensures
        flat_matches(new, m, shape, num, q + 1, rows, cols),
{
    let cell = read_cell(m, q);
    lemma_flat_index(cell.0, cell.1, cell.2, rows, cols);
    assert(unflatten(idx, rows, cols) == cell);
    assert forall|f: int| 0 <= f < new.len() implies #[trigger] new[f] == cell_code(
        m,
        shape,
        num,
        q + 1,
        unflatten(f, rows, cols),
    ) by {
        lemma_unflatten(f, rows, cols);
        lemma_cell_code_step(m, shape, num, q, unflatten(f, rows, cols));
        if f != idx {
            if unflatten(f, rows, cols) == cell {
                assert(f == idx);
            }
            assert(new[f] == old[f]);
        }
    }
}

pub(crate) proof fn lemma_index_in_box(a: int, b: int, c: int, depth: int, rows: int, cols: int)
    requires
        0 <= a < depth,
        0 <= b < rows,
        0 <= c < cols,
    ensures
        0 <= a * rows + b < depth * rows,
        0 <= (a * rows + b) * cols + c < depth * rows * cols,
        depth * rows <= depth * rows * cols,
{
    assert(0 <= a * rows + b < depth * rows) by (nonlinear_arith)
        requires
            0 <= a < depth,
            0 <= b < rows,
    ;
    assert(0 <= (a * rows + b) * cols + c < depth * rows * cols) by (nonlinear_arith)
        requires
            0 <= a * rows + b < depth * rows,
            0 <= c < cols,
    ;
    assert(depth * rows <= depth * rows * cols) by (nonlinear_arith)
        requires
            cols >= 1,
            depth * rows >= 0,
    ;
}

proof fn lemma_read_index(t: int, p: int, pp: int, n: int)
    requires
        0 <= t < n,
        0 <= p < pp,
    ensures
        0 <= t * pp + p < n * pp,
        (t * pp + p) / pp == t,
        (t * pp + p) % pp == p,
        t * pp + pp == (t + 1) * pp,
{
    lemma_fundamental_div_mod_converse(t * pp + p, pp, t, p);
    assert(0 <= t * pp + p < n * pp) by (nonlinear_arith)
        requires
            0 <= t < n,
            0 <= p < pp,
    ;
    assert(t * pp + pp == (t + 1) * pp) by (nonlinear_arith);
}

proof fn lemma_next_block(t: int, pp: int)
    ensures
        t * pp + pp == (t + 1) * pp,
{
    assert(t * pp + pp == (t + 1) * pp) by (nonlinear_arith);
}

pub(crate) proof fn lemma_plane_le(o0: int, o1: int, o2: int)
    requires
        o0 > 0,
        o1 > 0,
        o2 > 0,
    ensures
        o1 * o2 <= o0 * o1 * o2,
        o1 * o2 > 0,
{
    assert(o1 * o2 <= o0 * o1 * o2 && o1 * o2 > 0) by (nonlinear_arith)
        requires
            o0 > 0,
            o1 > 0,
            o2 > 0,
    ;
}

/// Marks in `flat` the reads of one output of the convolution: the output
/// `t`, whose reads are `pos` and whose worker has the bit `bit`.
fn mark_output_reads(
    flat: &mut Vec<u16>,
    pos: &Vec<Vec<i32>>,
    bit: u16,
    pad0: u16,
    pad1: u16,
    rows: usize,
    cols: usize,
    input_shape: &Vec<usize>,
    Ghost(m): Ghost<ConvMapping>,
    Ghost(num): Ghost<int>,
    Ghost(t): Ghost<int>,
)
    requires
        conv_reads_ok(m, input_shape@, num),
        0 <= t < n_outputs(m),
        rows_equal(*pos, conv_input_positions(m, out_position(m, t))),
        pad0 as int == padding_number(m.k.0),
        pad1 as int == padding_number(m.k.1),
        rows == input_shape@[1] + pad0,
        cols == input_shape@[2] + pad1,
        old(flat)@.len() == input_shape@[0] * rows * cols,
        bit == (1u16 << (worker_at(t, num) as u16)) as u16,
        flat_matches(old(flat)@, m, input_shape@, num, t * reads_per_output(m), rows as int, cols as int),
    ensures
        final(flat)@.len() == old(flat)@.len(),
        flat_matches(final(flat)@, m, input_shape@, num, (t + 1) * reads_per_output(m), rows as int, cols as int),
{
    let ghost pp = reads_per_output(m);
    let ghost shape = input_shape@;
    let depth = input_shape[0];
    let mut p: usize = 0;
    while p < pos.len()
        invariant
            conv_reads_ok(m, shape, num),
            shape == input_shape@,
            0 <= t < n_outputs(m),
            pp == reads_per_output(m),
            rows_equal(*pos, conv_input_positions(m, out_position(m, t))),
            pad0 as int == padding_number(m.k.0),
            pad1 as int == padding_number(m.k.1),
            rows == shape[1] + pad0,
            cols == shape[2] + pad1,
            depth == shape[0],
            flat@.len() == depth * rows * cols,
            bit == (1u16 << (worker_at(t, num) as u16)) as u16,
            0 <= p <= pos@.len(),
            flat_matches(flat@, m, shape, num, t * pp + p, rows as int, cols as int),
        decreases pos@.len() - p,
    {
        let ghost q = t * pp + p;
        proof {
            lemma_read_index(t, p as int, pp, n_outputs(m));
        }
        let row = &pos[p];
        assert(row@ == read_position(m, q));
        let a = row[0] as usize;
        let b = (row[1] + (pad0 / 2) as i32) as usize;
        let c = (row[2] + (pad1 / 2) as i32) as usize;
        assert(read_cell(m, q) == (a as int, b as int, c as int));
        let len = flat.len();
        proof {
            lemma_index_in_box(a as int, b as int, c as int, depth as int, rows as int, cols as int);
        }
        let idx = (a * rows + b) * cols + c;
        let mut v = flat[idx] | bit;
        let is_pad = (b > input_shape[1] || b == 0) && pad0 != 0 || (c > input_shape[2] || c == 0) && pad1
            != 0;
        if is_pad {
            v = v | 0x8000u16;
        }
        proof {
            assert(is_pad == padding_cell(m, shape[1] as int, shape[2] as int, b as int, c as int));
            lemma_or_assoc(flat@[idx as int], bit);
            assert(v == (flat@[idx as int] | read_code(m, shape, num, q)) as u16);
            lemma_flat_step(flat@, flat@.update(idx as int, v), idx as int, v, m, shape, num, q, rows as int, cols as int);
        }
        flat.set(idx, v);
        p = p + 1;
    }
    proof {
        lemma_next_block(t, pp);
    }
}


proof fn lemma_zero_box(depth: int, rows: int, cols: int)
    requires
        depth == 0 || rows == 0 || cols == 0,
    ensures
        depth * rows * cols == 0,
{
    assert(depth * rows * cols == 0) by (nonlinear_arith)
        requires
            depth == 0 || rows == 0 || cols == 0,
    ;
}

/// The read map of a convolution, built cell by cell over a flat vector.
fn mark_conv_reads<W: Copy>(layer: &Conv<W>, num: i32, input_shape: &Vec<usize>) -> (mapping: Vec<Vec<Vec<u16>>>)
    requires
        conv_reads_ok(layer.info, input_shape@, num as int),
        fits_i32(layer.info.o.0 * layer.info.o.1),
        fits_i32(layer.info.o.0 * layer.info.o.1 * layer.info.o.2),
    ensures
        mapping_matches(mapping@, layer.info, input_shape@, num as int),
{
    let ghost m = layer.info;
    let ghost shape = input_shape@;
    let ghost pp = reads_per_output(m);
    let k0 = #[verifier::truncate] (layer.info.k.0 as u16);
    let k1 = #[verifier::truncate] (layer.info.k.1 as u16);
    let pad0 = k0 / 2 * 2;
    let pad1 = k1 / 2 * 2;
    assert(pad0 as int == padding_number(m.k.0) && pad1 as int == padding_number(m.k.1));
    let rows = input_shape[1] + pad0 as usize;
    let cols = input_shape[2] + pad1 as usize;
    let depth = input_shape[0];
    let total_cells: usize = if rows == 0 || cols == 0 || depth == 0 {
        proof {
            lemma_zero_box(depth as int, rows as int, cols as int);
        }
        0
    } else {
        proof {
            lemma_index_in_box(0, 0, 0, depth as int, rows as int, cols as int);
        }
        depth * rows * cols
    };
    assert(total_cells == depth * rows * cols);
    let mut flat: Vec<u16> = Vec::new();
    while flat.len() < total_cells
        invariant
            flat@.len() <= total_cells,
            forall|f: int| 0 <= f < flat@.len() ==> #[trigger] flat@[f] == 0u16,
        decreases total_cells - flat@.len(),
    {
        flat.push(0u16);
    }
    proof {
        assert forall|f: int| 0 <= f < flat@.len() implies #[trigger] flat@[f] == cell_code(
            m,
            shape,
            num as int,
            0,
            unflatten(f, rows as int, cols as int),
        ) by {
            lemma_cell_code_zero(m, shape, num as int, unflatten(f, rows as int, cols as int));
        }
    }
    let o0 = layer.info.o.0;
    let o1 = layer.info.o.1;
    let o2 = layer.info.o.2;
    let n: i32 = if o0 > 0 && o1 > 0 && o2 > 0 {
        o0 * o1 * o2
    } else {
        0
    };
    let mut t: i32 = 0;
    let mut which_cpu: i32 = 0;
    while t < n
        invariant
            conv_reads_ok(m, shape, num as int),
            m == layer.info,
            shape == input_shape@,
            pp == reads_per_output(m),
            pad0 as int == padding_number(m.k.0),
            pad1 as int == padding_number(m.k.1),
            rows == shape[1] + pad0,
            cols == shape[2] + pad1,
            depth == shape[0],
            flat@.len() == depth * rows * cols,
            n == n_outputs(m),
            n > 0 ==> o1 > 0 && o2 > 0 && o0 > 0 && n == o0 * o1 * o2,
            o0 == m.o.0 && o1 == m.o.1 && o2 == m.o.2,
            0 <= t <= n,
            which_cpu == worker_before(t as int, num as int),
            flat_matches(flat@, m, shape, num as int, t * pp, rows as int, cols as int),
        decreases n - t,
    {
        proof {
            lemma_worker_step(t as int, num as int);
        }
        if div_i32(t, num) != which_cpu {
            which_cpu = which_cpu + 1;
        }
        assert(which_cpu == worker_at(t as int, num as int));
        proof {
            lemma_plane_le(o0 as int, o1 as int, o2 as int);
        }
        let j = t / (o1 * o2);
        let k = (t / o2) % o1;
        let mm = t % o2;
        let out_pos = triple(j, k, mm);
        assert(out_pos@ == out_position(m, t as int));
        let pos = layer.get_input(out_pos);
        let bit: u16 = 1u16 << (which_cpu as u16);
        mark_output_reads(
            &mut flat,
            &pos,
            bit,
            pad0,
            pad1,
            rows,
            cols,
            input_shape,
            Ghost(m),
            Ghost(num as int),
            Ghost(t as int),
        );
        t = t + 1;
    }
    proof {
        if n <= 0 {
            assert(t == 0);
        }
    }
    let mapping = unflatten_mapping(&flat, depth, rows, cols);
    proof {
        assert forall|a: int, b: int, c: int|
            0 <= a < shape[0] && 0 <= b < rows && 0 <= c < cols implies #[trigger] mapping@[a]@[b]@[c]
                == cell_code(m, shape, num as int, n_outputs(m) * reads_per_output(m), (a, b, c)) by {
            lemma_flat_index(a, b, c, rows as int, cols as int);
            lemma_index_in_box(a, b, c, depth as int, rows as int, cols as int);
        }
    }
    mapping
}


pub(crate) proof fn lemma_product_of_three(a: i32, b: i32, c: i32)
    requires
        shape_product_fits(seq![a, b, c]),
    ensures
        shape_product(seq![a, b, c]) == a * b * c,
        fits_i32(a * b),
        fits_i32(a * b * c),
{
    let s = seq![a, b, c];
    assert(s.take(0) =~= Seq::<i32>::empty());
    assert(s.take(1).drop_last() =~= s.take(0));
    assert(s.take(2).drop_last() =~= s.take(1));
    assert(s.take(3).drop_last() =~= s.take(2));
    assert(s.take(3) =~= s);
    assert(s.take(1).last() == a && s.take(2).last() == b && s.take(3).last() == c);
    assert(shape_product(s.take(0)) == 1);
    assert(shape_product(s.take(1)) == a);
    assert(shape_product(s.take(2)) == a * b);
    assert(shape_product(s.take(3)) == a * b * c);
    assert(fits_i32(shape_product(s.take(2))));
}

/// For each cell of the input padded for the layer's kernel, which workers
/// read it and whether it is padding: the read map of a convolution
/// (`mapping_matches`), with the outputs handed to the workers in runs of
/// `num_per_cpu` in row-major order; for the other layers an empty map,
/// which means that every worker gets the whole input.
pub fn get_input_mapping<W: Copy>(layer: &LayerWrapper<W>, total_cpu_count: i32, input_shape: Vec<usize>) -> (mapping: Vec<Vec<Vec<u16>>>)
    requires
        layer_output_shape_ok(*layer),
        shape_product_fits(layer_output_shape(*layer)),
        layer_info_ok(*layer),
        match *layer {
            LayerWrapper::Convolution(c) => conv_mapping_ok(c.info, input_shape@, total_cpu_count as int),
            _ => true,
        },
    ensures
        match *layer {
            LayerWrapper::Convolution(c) => mapping_matches(
                mapping@,
                c.info,
                input_shape@,
                outputs_per_worker(c.info.o.0 * c.info.o.1 * c.info.o.2, total_cpu_count as int),
            ),
            _ => mapping@.len() == 0,
        },
{
    let shape = layer.get_output_shape();
    let oc = output_count(&shape);
    let num = num_per_cpu(oc, total_cpu_count);
    let _info = layer.get_info();
    match layer {
        LayerWrapper::Convolution(c) => {
            proof {
                lemma_product_of_three(c.info.o.0, c.info.o.1, c.info.o.2);
            }
            mark_conv_reads(c, num, &input_shape)
        },
        _ => Vec::new(),
    }
}


/// Bit `w` of the code of read `q`: the bit of its worker, or the top bit
/// for a padding cell.
pub open spec fn read_marks(m: ConvMapping, shape: Seq<usize>, num: int, q: int, w: int) -> bool {
    let cell = read_cell(m, q);
    ||| worker_at(q / reads_per_output(m), num) == w
    ||| w == 15 && padding_cell(m, shape[1] as int, shape[2] as int, cell.1, cell.2)
}

proof fn lemma_or_bit(x: u16, wk: u16, w: u16, pad: bool)
    by (bit_vector)
    requires
        wk < 16,
        w < 16,
    ensures
        (((x | (if pad { ((1u16 << wk) | 0x8000u16) as u16 } else { (1u16 << wk) as u16 })) >> w) & 1u16 == 1u16)
            == (((x >> w) & 1u16 == 1u16) || wk == w || (pad && w == 15)),
{
}

proof fn lemma_zero_bit(w: u16)
    by (bit_vector)
    requires
        w < 16,
    ensures
        ((0u16 >> w) & 1u16) == 0u16,
{
}

/// Law of the read map: bit `w` of a cell's code is set exactly when one of
/// the reads so far that touch the cell belongs to an output of worker `w`,
/// or, for the top bit, when the cell is padding.
pub proof fn lemma_cell_code_bits(m: ConvMapping, shape: Seq<usize>, num: int, n: int, cell: (int, int, int), w: int)
    requires
        0 <= w < 16,
        n >= 0,
        forall|q: int| 0 <= q < n ==> 0 <= #[trigger] worker_at(q / reads_per_output(m), num) < 16,
    ensures
        ((cell_code(m, shape, num, n, cell) >> (w as u16)) & 1u16 == 1u16) <==> exists|q: int|
            0 <= q < n && #[trigger] read_cell(m, q) == cell && read_marks(m, shape, num, q, w),
    decreases n,
{
    if n == 0 {
        lemma_cell_code_zero(m, shape, num, cell);
        lemma_zero_bit(w as u16);
    } else {
        lemma_cell_code_bits(m, shape, num, n - 1, cell, w);
        lemma_cell_code_step(m, shape, num, n - 1, cell);
        let q = n - 1;
        let wk = worker_at(q / reads_per_output(m), num);
        assert(0 <= wk < 16);
        let c = read_cell(m, q);
        let pad = padding_cell(m, shape[1] as int, shape[2] as int, c.1, c.2);
        if read_cell(m, q) == cell {
            lemma_or_bit(cell_code(m, shape, num, n - 1, cell), wk as u16, w as u16, pad);
            assert(read_code(m, shape, num, q) == (if pad { ((1u16 << (wk as u16)) | 0x8000u16) as u16 } else {
                (1u16 << (wk as u16)) as u16
            }));
        }
        if exists|q2: int| 0 <= q2 < n - 1 && #[trigger] read_cell(m, q2) == cell && read_marks(m, shape, num, q2, w) {
            let q2 = choose|q2: int| 0 <= q2 < n - 1 && #[trigger] read_cell(m, q2) == cell && read_marks(m, shape, num, q2, w);
            assert(0 <= q2 < n && read_cell(m, q2) == cell && read_marks(m, shape, num, q2, w));
        }
    }
}

} // verus!
