use vstd::prelude::*;
use crate::distribute::{
    cell_value, compare_positions, conv_lists, lemma_reading_every_cell, map_cells, map_code, routes_to, worker_inputs, conv_share, distribute_weight_ok, holds_kernel, lemma_units_hold_kernel_weights,
    lex_order, units_view, WeightUnit, WeightUnitView,
};
use crate::flat::copy_vec;
use crate::layers::{conv_input_positions, window_len, Conv, ConvMapping, InfoView, InfoWrapper, LayerWrapper};
use crate::num::{div_i32, fits_i32, trunc_div};
use crate::operations::n_outputs;

verus! {

/// One output of a worker: the sum, over `reads`, of the input value at
/// the first index times the weight of unit `unit` at the second index.
pub struct Product {
    pub unit: usize,
    pub reads: Vec<(usize, usize)>,
}

/// The mathematical value of a `Product`.
pub struct ProductView {
    pub unit: usize,
    pub reads: Seq<(usize, usize)>,
}

impl View for Product {
    type V = ProductView;

    open spec fn view(&self) -> ProductView {
        ProductView { unit: self.unit, reads: self.reads@ }
    }
}

/// The values of a sequence of products.
pub open spec fn products_view(s: Seq<Product>) -> Seq<ProductView> {
    s.map_values(|p: Product| p@)
}

/// What a worker computes from its inputs and its weights: a list of sums
/// of products, its inputs clamped to `0..=6` (ReLU6), or nothing.
pub enum ComputePlan {
    Sums(Vec<Product>),
    Clamp,
    Nothing,
}

/// Where a worker stands in walking its convolution units: the index of
/// the first input of the current window in its inputs, the furthest
/// position visited, whether it is still in its first row, how many rows
/// lie outside its inputs, the position where the previous unit ended, and
/// the outputs so far with their kernels.
pub struct Run {
    pub start_point: i32,
    pub max_visited: Seq<i32>,
    pub first_row: bool,
    pub out_side_rows: i32,
    pub prev: Seq<i32>,
    pub produced: Seq<(u16, ProductView)>,
}

/// `max` of two positions in lexicographic order.
pub open spec fn lex_max(a: Seq<i32>, b: Seq<i32>) -> Seq<i32> {
    if lex_order(a, b) <= 0 {
        b
    } else {
        a
    }
}

/// The window of the current output: the row and column of its first
/// position with half a kernel added.
pub open spec fn padded_row(m: ConvMapping, s: Seq<i32>) -> int {
    s[1] + trunc_div(m.k.0 as int, 2)
}

pub open spec fn padded_col(m: ConvMapping, s: Seq<i32>) -> int {
    s[2] + trunc_div(m.k.1 as int, 2)
}

/// Inputs left from the current window on.
pub open spec fn remaining(len: usize, r: Run) -> int {
    (len as i32) - r.start_point
}

/// Inputs needed to complete the window.
pub open spec fn to_complete(m: ConvMapping, s: Seq<i32>) -> int {
    m.k.1 * m.i.2 - padded_col(m, s)
}

/// The window is cut at the end of the worker's inputs.
pub open spec fn is_tail(m: ConvMapping, len: usize, r: Run, s: Seq<i32>) -> bool {
    remaining(len, r) < to_complete(m, s) && !r.first_row
}

/// The window starts the worker's first row with enough inputs.
pub open spec fn is_head(m: ConvMapping, len: usize, r: Run, s: Seq<i32>) -> bool {
    r.first_row && remaining(len, r) >= to_complete(m, s)
}

/// Rows outside the inputs once the window is cut at the end.
pub open spec fn tail_rows(m: ConvMapping, s: Seq<i32>) -> int {
    if padded_row(m, s) >= m.s.1 {
        m.s.1 as int
    } else {
        m.k.1 as int
    }
}

/// Number of reads of one output: input channels per group times kernel
/// rows times kernel columns, each counted as zero when not positive.
pub open spec fn n_reads(m: ConvMapping) -> int {
    let g = if m.i_pg > 0 { m.i_pg as int } else { 0 };
    let a = if m.k.0 > 0 { m.k.0 as int } else { 0 };
    let b = if m.k.1 > 0 { m.k.1 as int } else { 0 };
    g * a * b
}

/// The amount that a cut or head window takes off the index of read
/// (`j`: kernel row) as the worker computes it in `usize`, or `None` on
/// overflow.
pub open spec fn read_shift(m: ConvMapping, len: usize, r: Run, s: Seq<i32>, adj: i32, j: int) -> Option<int> {
    if is_tail(m, len, r, s) {
        let osr = tail_rows(m, s);
        let ir = m.k.0 - osr;
        let gap = to_complete(m, s) - remaining(len, r);
        if !fits_i32(ir) || !fits_i32(gap) || osr == 0 || (gap == i32::MIN && osr == -1) {
            None
        } else if j > ir {
            let a = ((j - ir) as usize) as int;
            let b = ((trunc_div(gap, osr) as i32) as usize) as int;
            if !fits_i32(j - ir) || a * b > usize::MAX {
                None
            } else {
                Some(a * b)
            }
        } else {
            Some(0)
        }
    } else if is_head(m, len, r, s) {
        let f = if j < r.out_side_rows { j } else { r.out_side_rows - 1 };
        let a = ((f as i32) as usize) as int;
        let b = (adj as usize) as int;
        if !fits_i32(f) || a * b > usize::MAX {
            None
        } else {
            Some(a * b)
        }
    } else if r.first_row {
        None
    } else {
        Some(0)
    }
}

/// The read for group channel `c`, kernel row `j` and kernel column `kk`:
/// the input index and the weight index, or `None` when the worker would
/// overflow, index outside its inputs or weights, or meet a first-row
/// window it cannot complete.
pub open spec fn read_at(
    m: ConvMapping,
    len: usize,
    data_len: int,
    r: Run,
    s: Seq<i32>,
    adj: i32,
    c: int,
    j: int,
    kk: int,
) -> Option<(usize, usize)> {
    let i1 = m.i.1 as int;
    let i2 = m.i.2 as int;
    let k0 = m.k.0 as int;
    let k1 = m.k.1 as int;
    let channel = c * i1 * i2;
    let col = j * i2;
    let base = channel + col + kk + r.start_point;
    let widx = c * k0 * k1 + j * k1 + kk;
    let osr_now = if is_tail(m, len, r, s) && (c > 0 || j > 0 || kk > 0) {
        tail_rows(m, s)
    } else {
        r.out_side_rows as int
    };
    if !(fits_i32(k1 - osr_now) && fits_i32(c * i1) && fits_i32(channel) && fits_i32(col) && fits_i32(channel + col) && fits_i32(
        channel + col + kk,
    ) && fits_i32(base) && fits_i32(remaining(len, r)) && fits_i32(k1 * i2) && fits_i32(to_complete(m, s))
        && fits_i32(c * k0) && fits_i32(c * k0 * k1) && fits_i32(j * k1) && fits_i32(c * k0 * k1 + j * k1)
        && fits_i32(widx)) {
        None
    } else {
        match read_shift(m, len, r, s, adj, j) {
            None => None,
            Some(shift) => {
                let idx0 = ((base as i32) as usize) as int;
                if idx0 < shift || idx0 - shift >= len || widx >= data_len {
                    None
                } else {
                    Some(((idx0 - shift) as usize, widx as usize))
                }
            },
        }
    }
}

/// The `t`-th read of an output, in the order group channel, kernel row,
/// kernel column.
pub open spec fn read_number(m: ConvMapping, len: usize, data_len: int, r: Run, s: Seq<i32>, adj: i32, t: int) -> Option<(usize, usize)> {
    let k0 = if m.k.0 > 0 { m.k.0 as int } else { 0 };
    let k1 = if m.k.1 > 0 { m.k.1 as int } else { 0 };
    read_at(m, len, data_len, r, s, adj, t / (k0 * k1), (t / k1) % k0, t % k1)
}

/// The products that the walk over the group channels and kernel rows
/// computes before any read stay inside `i32`.
pub open spec fn loop_products_ok(m: ConvMapping) -> bool {
    &&& forall|c: int| 0 <= c < m.i_pg ==> fits_i32(#[trigger] (c * m.i.1)) && fits_i32(c * m.i.1 * m.i.2)
    &&& m.i_pg > 0 ==> forall|j: int| 0 <= j < m.k.0 ==> fits_i32(#[trigger] (j * m.i.2))
}

/// All the reads of an output can be made.
pub open spec fn reads_ok(m: ConvMapping, len: usize, data_len: int, r: Run, s: Seq<i32>, adj: i32) -> bool {
    forall|t: int| 0 <= t < n_reads(m) ==> (#[trigger] read_number(m, len, data_len, r, s, adj, t)) is Some
}

/// The reads of an output.
pub open spec fn reads_of(m: ConvMapping, len: usize, data_len: int, r: Run, s: Seq<i32>, adj: i32) -> Seq<(usize, usize)> {
    Seq::new(n_reads(m) as nat, |t: int| read_number(m, len, data_len, r, s, adj, t).unwrap())
}

/// One output of unit `unit` (kernel `kernel`, `data_len` weights) at
/// position `s`: its reads, then the move to the next position (a stride
/// along the row; past the row's end, back to its start and a stride down),
/// or `None` when the worker would panic or overflow.
pub open spec fn output_step(
    m: ConvMapping,
    len: usize,
    unit: usize,
    kernel: u16,
    data_len: int,
    r: Run,
    s: Seq<i32>,
    adj: i32,
) -> Option<(Run, Seq<i32>)> {
    let k0 = m.k.0 as int;
    let s0 = m.s.0 as int;
    let s1 = m.s.1 as int;
    let h = trunc_div(k0, 2);
    let osr = if is_tail(m, len, r, s) && n_reads(m) > 0 { tail_rows(m, s) as i32 } else { r.out_side_rows };
    let sc = s[2] + s0;
    let sp1 = r.start_point + s0;
    let wrap = sc + h + k0 > m.i.2;
    let sp2 = sp1 - s0 + k0 + (s1 - 1) * m.i.1;
    let sp3 = sp2 - (osr - 1) * adj;
    if !(s.len() >= 3 && fits_i32(padded_row(m, s)) && fits_i32(padded_col(m, s)) && loop_products_ok(m) && reads_ok(
        m,
        len,
        data_len,
        r,
        s,
        adj,
    ) && kernel < 10000 && fits_i32(sc) && fits_i32(sp1) && fits_i32(sc + h) && fits_i32(sc + h + k0)) {
        None
    } else if !wrap {
        let s2 = s.update(2, sc as i32);
        Some(
            (
                Run {
                    start_point: sp1 as i32,
                    max_visited: lex_max(r.max_visited, s2),
                    first_row: r.first_row,
                    out_side_rows: osr,
                    prev: r.prev,
                    produced: r.produced.push((kernel, ProductView { unit, reads: reads_of(m, len, data_len, r, s, adj) })),
                },
                s2,
            ),
        )
    } else if !(fits_i32(0 - h) && fits_i32(s[1] + s1) && fits_i32(sp1 - s0) && fits_i32(sp1 - s0 + k0) && fits_i32(
        s1 - 1,
    ) && fits_i32((s1 - 1) * m.i.1) && fits_i32(sp2) && (r.first_row ==> fits_i32(osr - 1) && fits_i32(
        (osr - 1) * adj,
    ) && fits_i32(sp3))) {
        None
    } else {
        let s2 = s.update(2, (0 - h) as i32).update(1, (s[1] + s1) as i32);
        Some(
            (
                Run {
                    start_point: if r.first_row { sp3 as i32 } else { sp2 as i32 },
                    max_visited: lex_max(r.max_visited, s2),
                    first_row: false,
                    out_side_rows: osr,
                    prev: r.prev,
                    produced: r.produced.push((kernel, ProductView { unit, reads: reads_of(m, len, data_len, r, s, adj) })),
                },
                s2,
            ),
        )
    }
}

/// The first `n` outputs of a unit, from position `s`.
#[verifier::opaque]
pub open spec fn unit_outputs(
    m: ConvMapping,
    len: usize,
    unit: usize,
    kernel: u16,
    data_len: int,
    r: Run,
    s: Seq<i32>,
    adj: i32,
    n: int,
) -> Option<(Run, Seq<i32>)>
    decreases n,
{
    if n <= 0 {
        Some((r, s))
    } else {
        match unit_outputs(m, len, unit, kernel, data_len, r, s, adj, n - 1) {
            None => None,
            Some(x) => output_step(m, len, unit, kernel, data_len, x.0, x.1, adj),
        }
    }
}

/// Where the worker's inputs for a unit start, before its first output:
/// moved down past the rows the previous windows used when the unit starts
/// beyond every position visited, else moved back by the difference to
/// where the previous unit ended.
pub open spec fn unit_start_point(m: ConvMapping, r: Run, s0: Seq<i32>, prev: Seq<i32>) -> Option<i32> {
    let i1 = m.i.1 as int;
    let i2 = m.i.2 as int;
    if lex_order(s0, r.max_visited) > 0 {
        let a = (m.k.1 - m.s.1) * i2;
        let b = (m.i_pg - 1) * i1 * i2;
        if fits_i32(m.k.1 - m.s.1) && fits_i32(a) && fits_i32(m.i_pg - 1) && fits_i32((m.i_pg - 1) * i1) && fits_i32(b)
            && fits_i32(r.start_point + a) && fits_i32(r.start_point + a + b) {
            Some((r.start_point + a + b) as i32)
        } else {
            None
        }
    } else {
        let n = if s0.len() < prev.len() { s0.len() } else { prev.len() };
        let d1 = prev[1] - s0[1];
        let d2 = prev[2] - s0[2];
        if n >= 3 && (forall|t: int| 0 <= t < n ==> #[trigger] fits_i32(prev[t] - s0[t])) && fits_i32(d1 * i2)
            && fits_i32(r.start_point - d1 * i2) && fits_i32(r.start_point - d1 * i2 - d2) {
            Some((r.start_point - d1 * i2 - d2) as i32)
        } else {
            None
        }
    }
}

/// Unit `i` of the worker: skipped when it has no outputs (its position
/// still counts as where it ended), else its start, then its outputs.
pub open spec fn unit_step<W>(m: ConvMapping, len: usize, units: Seq<WeightUnitView<W>>, i: int, r: Run) -> Option<Run> {
    let u = units[i];
    let s0 = u.start_pos_in;
    if !(s0.len() >= 3 && fits_i32(padded_row(m, s0)) && fits_i32(padded_col(m, s0))) {
        None
    } else if u.count == 0 {
        Some(Run { prev: s0, ..r })
    } else {
        let init = i == 0 && !r.first_row;
        let osr = if m.i.2 - padded_row(m, s0) <= m.k.1 { m.k.1 } else { m.s.1 };
        let r1 = if init {
            Run { first_row: true, out_side_rows: osr, ..r }
        } else {
            r
        };
        let adj: i32 = if init { padded_col(m, s0) as i32 } else { 0 };
        let prev = if i == 0 { s0 } else { r.prev };
        if init && !(fits_i32(m.i.2 - padded_row(m, s0)) && fits_i32(m.k.1 - osr)) {
            None
        } else {
            match unit_start_point(m, r1, s0, prev) {
                None => None,
                Some(sp) => match unit_outputs(
                    m,
                    len,
                    i as usize,
                    u.which_kernel,
                    u.data.len() as int,
                    Run { start_point: sp, ..r1 },
                    s0,
                    adj,
                    u.count as int,
                ) {
                    None => None,
                    Some(x) => Some(Run { prev: x.1, ..x.0 }),
                },
            }
        }
    }
}

/// The worker's state after its first `n` units.
#[verifier::opaque]
pub open spec fn run_units<W>(m: ConvMapping, len: usize, units: Seq<WeightUnitView<W>>, n: int) -> Option<Run>
    decreases n,
{
    if n <= 0 {
        Some(
            Run {
                start_point: 0,
                max_visited: units[0].start_pos_in,
                first_row: false,
                out_side_rows: 0,
                prev: units[0].start_pos_in,
                produced: seq![],
            },
        )
    } else {
        match run_units(m, len, units, n - 1) {
            None => None,
            Some(r) => unit_step(m, len, units, n - 1, r),
        }
    }
}

/// The outputs of kernel `k` among `produced`, in order.
pub open spec fn kernel_outputs(produced: Seq<(u16, ProductView)>, k: int) -> Seq<ProductView>
    decreases produced.len(),
{
    if produced.len() == 0 {
        seq![]
    } else {
        let prev = kernel_outputs(produced.drop_last(), k);
        if produced.last().0 == k {
            prev.push(produced.last().1)
        } else {
            prev
        }
    }
}

/// The outputs grouped by kernel, kernels in increasing order and outputs
/// of a kernel in the order they were computed.
pub open spec fn by_kernel(produced: Seq<(u16, ProductView)>) -> Seq<ProductView> {
    Seq::new(10000, |k: int| kernel_outputs(produced, k)).flatten()
}

/// The exec state of the walk (see `Run`).
struct Walker {
    start_point: i32,
    max_visited: Vec<i32>,
    first_row: bool,
    out_side_rows: i32,
}

spec fn run_of(w: Walker, prev: Seq<i32>, produced: Seq<(u16, ProductView)>) -> Run {
    Run {
        start_point: w.start_point,
        max_visited: w.max_visited@,
        first_row: w.first_row,
        out_side_rows: w.out_side_rows,
        prev,
        produced,
    }
}

proof fn lemma_read_index(c: int, j: int, kk: int, k0: int, k1: int, ng: int)
    requires
        0 <= c < ng,
        0 <= j < k0,
        0 <= kk < k1,
    ensures
        ({
            let t = (c * k0 + j) * k1 + kk;
            &&& 0 <= t < ng * k0 * k1
            &&& t / (k0 * k1) == c
            &&& (t / k1) % k0 == j
            &&& t % k1 == kk
        }),
{
    crate::layers::lemma_flat_index(c, j, kk, k0, k1);
    assert((c * k0 + j) * k1 + kk < ng * k0 * k1) by (nonlinear_arith)
        requires
            0 <= c < ng,
            0 <= j < k0,
            0 <= kk < k1,
    ;
    assert(0 <= (c * k0 + j) * k1 + kk) by (nonlinear_arith)
        requires
            0 <= c,
            0 <= j,
            0 <= kk,
            k1 > 0,
            k0 > 0,
    ;
}

fn mul32(a: i32, b: i32) -> (r: i64)
    ensures
        r == a * b,
{
    assert(i64::MIN <= (a as int) * (b as int) <= i64::MAX) by (nonlinear_arith)
        requires
            i32::MIN <= a <= i32::MAX,
            i32::MIN <= b <= i32::MAX,
    ;
    a as i64 * b as i64
}

fn fits32(x: i64) -> (b: bool)
    ensures
        b == fits_i32(x as int),
{
    i32::MIN as i64 <= x && x <= i32::MAX as i64
}

/// The rows outside the inputs at the read for (`c`, `j`, `kk`): after the
/// first read of a cut window, those of the cut.
pub open spec fn rows_now(m: ConvMapping, len: usize, r: Run, s: Seq<i32>, c: int, j: int, kk: int) -> int {
    if is_tail(m, len, r, s) && (c > 0 || j > 0 || kk > 0) {
        tail_rows(m, s)
    } else {
        r.out_side_rows as int
    }
}

/// The read for (`c`, `j`, `kk`) (see `read_at`), found with every step
/// checked, and the rows outside the inputs after it.
fn read_checked(
    m: ConvMapping,
    len: usize,
    data_len: usize,
    w: &Walker,
    osr: i32,
    s: &Vec<i32>,
    adj: i32,
    pr: i32,
    pc: i32,
    c: i32,
    j: i32,
    kk: i32,
    channel: i32,
    col: i32,
    Ghost(r): Ghost<Run>,
) -> (res: (Option<(usize, usize)>, i32))
    requires
        r.start_point == w.start_point,
        r.first_row == w.first_row,
        r.out_side_rows == w.out_side_rows,
        s@.len() >= 3,
        pr == padded_row(m, s@),
        pc == padded_col(m, s@),
        0 <= c,
        0 <= j,
        0 <= kk,
        m.k.0 > 0,
        m.k.1 > 0,
        osr == rows_now(m, len, r, s@, c as int, j as int, kk as int),
        fits_i32(c * m.i.1),
        channel == c * m.i.1 * m.i.2,
        col == j * m.i.2,
    ensures
        res.0 == read_at(m, len, data_len as int, r, s@, adj, c as int, j as int, kk as int),
        res.0 is Some ==> res.1 == (if is_tail(m, len, r, s@) { tail_rows(m, s@) as i32 } else { osr }),
{
    let k0 = m.k.0 as i64;
    let k1 = m.k.1 as i64;
    let i1 = m.i.1 as i64;
    let i2 = m.i.2 as i64;
    let sp = w.start_point as i64;
    if !fits32(k1 - osr as i64) {
        return (None, osr);
    }
    let s1 = channel as i64 + col as i64;
    if !fits32(s1) {
        return (None, osr);
    }
    let s2 = s1 + kk as i64;
    if !fits32(s2) {
        return (None, osr);
    }
    let base = s2 + sp;
    if !fits32(base) {
        return (None, osr);
    }
    let remaining = (#[verifier::truncate] (len as i32)) as i64 - sp;
    if !fits32(remaining) {
        return (None, osr);
    }
    let kw = mul32(m.k.1, m.i.2);
    if !fits32(kw) {
        return (None, osr);
    }
    let to_complete = kw - pc as i64;
    if !fits32(to_complete) {
        return (None, osr);
    }
    let ck = mul32(c, m.k.0);
    if !fits32(ck) {
        return (None, osr);
    }
    let ckk = mul32(ck as i32, m.k.1);
    if !fits32(ckk) {
        return (None, osr);
    }
    let jk = mul32(j, m.k.1);
    if !fits32(jk) {
        return (None, osr);
    }
    if !fits32(ckk + jk) {
        return (None, osr);
    }
    let widx = ckk + jk + kk as i64;
    if !fits32(widx) {
        return (None, osr);
    }
    let mut new_osr = osr;
    let shift: usize = if remaining < to_complete && !w.first_row {
        new_osr = if pr >= m.s.1 {
            m.s.1
        } else {
            m.k.1
        };
        let ir = k0 - new_osr as i64;
        let gap = to_complete - remaining;
        if !fits32(ir) || !fits32(gap) || new_osr == 0 || (gap == i32::MIN as i64 && new_osr == -1) {
            return (None, osr);
        }
        if (j as i64) > ir {
            if !fits32(j as i64 - ir) {
                return (None, osr);
            }
            let a = #[verifier::truncate] ((j - ir as i32) as usize);
            let b = #[verifier::truncate] (div_i32(gap as i32, new_osr) as usize);
            match a.checked_mul(b) {
                Some(x) => x,
                None => {
                    return (None, osr);
                },
            }
        } else {
            0
        }
    } else if w.first_row && remaining >= to_complete {
        let f: i64 = if j < w.out_side_rows {
            j as i64
        } else {
            w.out_side_rows as i64 - 1
        };
        if !fits32(f) {
            return (None, osr);
        }
        let a = #[verifier::truncate] ((f as i32) as usize);
        let b = #[verifier::truncate] (adj as usize);
        match a.checked_mul(b) {
            Some(x) => x,
            None => {
                return (None, osr);
            },
        }
    } else if w.first_row {
        return (None, osr);
    } else {
        0
    };
    let idx0 = #[verifier::truncate] ((base as i32) as usize);
    if idx0 < shift || idx0 - shift >= len || (widx as usize) >= data_len {
        return (None, osr);
    }
    (Some((idx0 - shift, widx as usize)), new_osr)
}

/// The reads of one output (see `reads_of`), and the rows outside the
/// inputs after them; `None` when a read cannot be made.
fn output_reads(
    m: ConvMapping,
    len: usize,
    data_len: usize,
    w: &Walker,
    s: &Vec<i32>,
    adj: i32,
    pr: i32,
    pc: i32,
    Ghost(r): Ghost<Run>,
) -> (res: Option<(Vec<(usize, usize)>, i32)>)
    requires
        r.start_point == w.start_point,
        r.first_row == w.first_row,
        r.out_side_rows == w.out_side_rows,
        s@.len() >= 3,
        pr == padded_row(m, s@),
        pc == padded_col(m, s@),
    ensures
        res is Some <==> (loop_products_ok(m) && reads_ok(m, len, data_len as int, r, s@, adj)),
        res matches Some(x) ==> {
            &&& x.0@ == reads_of(m, len, data_len as int, r, s@, adj)
            &&& x.1 == (if is_tail(m, len, r, s@) && n_reads(m) > 0 { tail_rows(m, s@) as i32 } else { r.out_side_rows })
        },
{
    let ghost k0 = if m.k.0 > 0 { m.k.0 as int } else { 0 };
    let ghost k1 = if m.k.1 > 0 { m.k.1 as int } else { 0 };
    let ghost ng = if m.i_pg > 0 { m.i_pg as int } else { 0 };
    let ghost spec_reads = reads_of(m, len, data_len as int, r, s@, adj);
    let ghost tail = is_tail(m, len, r, s@);
    let mut reads: Vec<(usize, usize)> = Vec::new();
    let mut osr = w.out_side_rows;
    let mut c: i32 = 0;
    while c < m.i_pg
        invariant
            r.start_point == w.start_point,
            r.first_row == w.first_row,
            r.out_side_rows == w.out_side_rows,
            s@.len() >= 3,
            pr == padded_row(m, s@),
            pc == padded_col(m, s@),
            spec_reads == reads_of(m, len, data_len as int, r, s@, adj),
            tail == is_tail(m, len, r, s@),
            k0 == (if m.k.0 > 0 { m.k.0 as int } else { 0 }),
            k1 == (if m.k.1 > 0 { m.k.1 as int } else { 0 }),
            ng == (if m.i_pg > 0 { m.i_pg as int } else { 0 }),
            0 <= c,
            c <= m.i_pg || (m.i_pg <= 0 && c == 0),
            reads@.len() == c * k0 * k1,
            forall|t: int| 0 <= t < reads@.len() ==> #[trigger] reads@[t] == spec_reads[t],
            forall|t: int| 0 <= t < reads@.len() ==> (#[trigger] read_number(m, len, data_len as int, r, s@, adj, t)) is Some,
            forall|c2: int| 0 <= c2 < c ==> fits_i32(#[trigger] (c2 * m.i.1)) && fits_i32(c2 * m.i.1 * m.i.2),
            c > 0 ==> forall|j2: int| 0 <= j2 < m.k.0 ==> fits_i32(#[trigger] (j2 * m.i.2)),
            osr == (if tail && reads@.len() > 0 { tail_rows(m, s@) as i32 } else { r.out_side_rows }),
        decreases m.i_pg - c,
    {
        let ci = mul32(c, m.i.1);
        if !fits32(ci) {
            return None;
        }
        let ch = mul32(ci as i32, m.i.2);
        if !fits32(ch) {
            return None;
        }
        let channel = ch as i32;
        let mut j: i32 = 0;
        while j < m.k.0
            invariant
                r.start_point == w.start_point,
                r.first_row == w.first_row,
                r.out_side_rows == w.out_side_rows,
                s@.len() >= 3,
                pr == padded_row(m, s@),
                pc == padded_col(m, s@),
                spec_reads == reads_of(m, len, data_len as int, r, s@, adj),
                tail == is_tail(m, len, r, s@),
                k0 == (if m.k.0 > 0 { m.k.0 as int } else { 0 }),
                k1 == (if m.k.1 > 0 { m.k.1 as int } else { 0 }),
                ng == m.i_pg,
                0 <= c < m.i_pg,
                fits_i32(c * m.i.1),
                channel == c * m.i.1 * m.i.2,
                0 <= j,
                j <= m.k.0 || (m.k.0 <= 0 && j == 0),
                reads@.len() == (c * k0 + j) * k1,
                forall|t: int| 0 <= t < reads@.len() ==> #[trigger] reads@[t] == spec_reads[t],
                forall|t: int| 0 <= t < reads@.len() ==> (#[trigger] read_number(m, len, data_len as int, r, s@, adj, t)) is Some,
                forall|c2: int| 0 <= c2 <= c ==> fits_i32(#[trigger] (c2 * m.i.1)) && fits_i32(c2 * m.i.1 * m.i.2),
                c > 0 ==> forall|j2: int| 0 <= j2 < m.k.0 ==> fits_i32(#[trigger] (j2 * m.i.2)),
                forall|j2: int| 0 <= j2 < j ==> fits_i32(#[trigger] (j2 * m.i.2)),
                osr == (if tail && reads@.len() > 0 { tail_rows(m, s@) as i32 } else { r.out_side_rows }),
            decreases m.k.0 - j,
        {
            let cj = mul32(j, m.i.2);
            if !fits32(cj) {
                return None;
            }
            let col = cj as i32;
            let mut kk: i32 = 0;
            while kk < m.k.1
                invariant
                    r.start_point == w.start_point,
                    r.first_row == w.first_row,
                    r.out_side_rows == w.out_side_rows,
                    s@.len() >= 3,
                    pr == padded_row(m, s@),
                    pc == padded_col(m, s@),
                    spec_reads == reads_of(m, len, data_len as int, r, s@, adj),
                    tail == is_tail(m, len, r, s@),
                    k0 == m.k.0,
                    k1 == (if m.k.1 > 0 { m.k.1 as int } else { 0 }),
                    ng == m.i_pg,
                    0 <= c < m.i_pg,
                    0 <= j < m.k.0,
                    fits_i32(c * m.i.1),
                    channel == c * m.i.1 * m.i.2,
                    col == j * m.i.2,
                    0 <= kk,
                    kk <= m.k.1 || (m.k.1 <= 0 && kk == 0),
                    reads@.len() == (c * k0 + j) * k1 + kk,
                    forall|t: int| 0 <= t < reads@.len() ==> #[trigger] reads@[t] == spec_reads[t],
                    forall|t: int| 0 <= t < reads@.len() ==> (#[trigger] read_number(m, len, data_len as int, r, s@, adj, t)) is Some,
                    osr == (if tail && reads@.len() > 0 { tail_rows(m, s@) as i32 } else { r.out_side_rows }),
                decreases m.k.1 - kk,
            {
                let ghost t = (c * k0 + j) * k1 + kk;
                proof {
                    lemma_read_index(c as int, j as int, kk as int, k0, k1, ng);
                    assert(n_reads(m) == ng * k0 * k1);
                    assert(read_number(m, len, data_len as int, r, s@, adj, t) == read_at(
                        m,
                        len,
                        data_len as int,
                        r,
                        s@,
                        adj,
                        c as int,
                        j as int,
                        kk as int,
                    ));
                    assert(reads@.len() > 0 <==> (c > 0 || j > 0 || kk > 0)) by (nonlinear_arith)
                        requires
                            reads@.len() == (c * k0 + j) * k1 + kk,
                            c >= 0,
                            j >= 0,
                            kk >= 0,
                            k0 > 0,
                            k1 > 0,
                    ;
                }
                let (rd, new_osr) = read_checked(m, len, data_len, w, osr, s, adj, pr, pc, c, j, kk, channel, col, Ghost(r));
                match rd {
                    None => {
                        proof {
                            assert(!reads_ok(m, len, data_len as int, r, s@, adj));
                        }
                        return None;
                    },
                    Some(x) => {
                        reads.push(x);
                        osr = new_osr;
                    },
                }
                kk = kk + 1;
            }
            proof {
                assert((c * k0 + j) * k1 + k1 == (c * k0 + j + 1) * k1) by (nonlinear_arith);
            }
            j = j + 1;
        }
        proof {
            if m.k.0 > 0 {
                assert((c * k0 + k0) * k1 == (c + 1) * k0 * k1) by (nonlinear_arith);
            } else {
                assert(c * k0 * k1 == 0 && (c + 1) * k0 * k1 == 0) by (nonlinear_arith)
                    requires
                        k0 == 0,
                ;
            }
        }
        c = c + 1;
    }
    proof {
        assert(reads@.len() == ng * k0 * k1);
        assert(n_reads(m) == ng * k0 * k1);
        assert(reads@ =~= spec_reads);
        assert(loop_products_ok(m));
    }
    Some((reads, osr))
}

/// One output of unit `unit` at position `s` (see `output_step`): the
/// product, with `w` and `s` moved on; `None` when the output cannot be
/// computed.
fn output_exec(
    m: ConvMapping,
    len: usize,
    unit: usize,
    kernel: u16,
    data_len: usize,
    w: &mut Walker,
    s: &mut Vec<i32>,
    adj: i32,
    Ghost(prev): Ghost<Seq<i32>>,
    Ghost(produced): Ghost<Seq<(u16, ProductView)>>,
) -> (p: Option<Product>)
    ensures
        p is Some <==> output_step(m, len, unit, kernel, data_len as int, run_of(*old(w), prev, produced), old(s)@, adj)
            is Some,
        p matches Some(pp) ==> {
            let x = output_step(m, len, unit, kernel, data_len as int, run_of(*old(w), prev, produced), old(s)@, adj)->0;
            &&& run_of(*final(w), prev, produced.push((kernel, pp@))) == x.0
            &&& final(s)@ == x.1
            &&& pp.unit == unit
        },
{
    let ghost r = run_of(*w, prev, produced);
    let ghost s_old = s@;
    if s.len() < 3 {
        return None;
    }
    let h0 = div_i32(m.k.0, 2);
    let h1 = div_i32(m.k.1, 2);
    let pr64 = s[1] as i64 + h0 as i64;
    let pc64 = s[2] as i64 + h1 as i64;
    if !fits32(pr64) || !fits32(pc64) {
        return None;
    }
    let (reads, osr) = match output_reads(m, len, data_len, w, s, adj, pr64 as i32, pc64 as i32, Ghost(r)) {
        None => {
            return None;
        },
        Some(x) => x,
    };
    if kernel >= 10000 {
        return None;
    }
    let sc = s[2] as i64 + m.s.0 as i64;
    let sp1 = w.start_point as i64 + m.s.0 as i64;
    let sch = sc + h0 as i64;
    let schk = sch + m.k.0 as i64;
    if !fits32(sc) || !fits32(sp1) || !fits32(sch) || !fits32(schk) {
        return None;
    }
    let wrap = schk > m.i.2 as i64;
    let mut sp_new: i64 = sp1;
    let mut s1_new: i64 = s[1] as i64;
    if wrap {
        let nh = 0 - h0 as i64;
        s1_new = s[1] as i64 + m.s.1 as i64;
        let a = sp1 - m.s.0 as i64;
        let b = a + m.k.0 as i64;
        let s1m = m.s.1 as i64 - 1;
        if !fits32(nh) || !fits32(s1_new) || !fits32(a) || !fits32(b) || !fits32(s1m) {
            return None;
        }
        let prod = mul32(s1m as i32, m.i.1);
        if !fits32(prod) || !fits32(b + prod) {
            return None;
        }
        sp_new = b + prod;
        if w.first_row {
            let om = osr as i64 - 1;
            if !fits32(om) {
                return None;
            }
            let pa = mul32(om as i32, adj);
            if !fits32(pa) || !fits32(sp_new - pa) {
                return None;
            }
            sp_new = sp_new - pa;
        }
    }
    let ghost x = output_step(m, len, unit, kernel, data_len as int, r, s_old, adj)->0;
    let p = Product { unit, reads };
    s.set(2, sc as i32);
    w.out_side_rows = osr;
    w.start_point = sp_new as i32;
    if wrap {
        s.set(2, 0 - h0);
        s.set(1, s1_new as i32);
        w.first_row = false;
    }
    if compare_positions(&w.max_visited, s) <= 0 {
        w.max_visited = copy_vec(s);
    }
    proof {
        assert(p@.reads == reads_of(m, len, data_len as int, r, s_old, adj));
        assert(s@ =~= x.1);
        assert(w.max_visited@ =~= x.0.max_visited);
        assert(run_of(*w, prev, produced.push((kernel, p@))) =~= x.0);
    }
    Some(p)
}

proof fn lemma_unit_outputs_step(
    m: ConvMapping,
    len: usize,
    unit: usize,
    kernel: u16,
    data_len: int,
    r: Run,
    s: Seq<i32>,
    adj: i32,
    n: int,
)
    requires
        n >= 0,
    ensures
        unit_outputs(m, len, unit, kernel, data_len, r, s, adj, 0) == Some((r, s)),
        unit_outputs(m, len, unit, kernel, data_len, r, s, adj, n + 1) == match unit_outputs(
            m,
            len,
            unit,
            kernel,
            data_len,
            r,
            s,
            adj,
            n,
        ) {
            None => None,
            Some(x) => output_step(m, len, unit, kernel, data_len, x.0, x.1, adj),
        },
{
    reveal(unit_outputs);
}

proof fn lemma_unit_outputs_prefix(
    m: ConvMapping,
    len: usize,
    unit: usize,
    kernel: u16,
    data_len: int,
    r: Run,
    s: Seq<i32>,
    adj: i32,
    a: int,
    b: int,
)
    requires
        0 <= a <= b,
        unit_outputs(m, len, unit, kernel, data_len, r, s, adj, b) is Some,
    ensures
        unit_outputs(m, len, unit, kernel, data_len, r, s, adj, a) is Some,
    decreases b - a,
{
    if a < b {
        lemma_unit_outputs_step(m, len, unit, kernel, data_len, r, s, adj, b - 1);
        lemma_unit_outputs_prefix(m, len, unit, kernel, data_len, r, s, adj, a, b - 1);
    }
}

proof fn lemma_run_units_step<W>(m: ConvMapping, len: usize, units: Seq<WeightUnitView<W>>, n: int)
    requires
        n >= 0,
    ensures
        run_units(m, len, units, n + 1) == match run_units(m, len, units, n) {
            None => None,
            Some(r) => unit_step(m, len, units, n, r),
        },
        run_units(m, len, units, 0) == Some(
            Run {
                start_point: 0,
                max_visited: units[0].start_pos_in,
                first_row: false,
                out_side_rows: 0,
                prev: units[0].start_pos_in,
                produced: seq![],
            },
        ),
{
    reveal(run_units);
}

proof fn lemma_run_units_prefix<W>(m: ConvMapping, len: usize, units: Seq<WeightUnitView<W>>, a: int, b: int)
    requires
        0 <= a <= b,
        run_units(m, len, units, b) is Some,
    ensures
        run_units(m, len, units, a) is Some,
    decreases b - a,
{
    if a < b {
        lemma_run_units_step(m, len, units, b - 1);
        lemma_run_units_prefix(m, len, units, a, b - 1);
    }
}

/// The kernel buckets hold the outputs so far, grouped by kernel.
spec fn buckets_match(buckets: Seq<Vec<Product>>, produced: Seq<(u16, ProductView)>) -> bool {
    &&& buckets.len() == 10000
    &&& forall|k: int| 0 <= k < 10000 ==> products_view((#[trigger] buckets[k])@) == kernel_outputs(produced, k)
}

proof fn lemma_bucket_push(buckets: Seq<Vec<Product>>, new: Seq<Vec<Product>>, produced: Seq<(u16, ProductView)>, kernel: u16, p: Product)
    requires
        buckets_match(buckets, produced),
        kernel < 10000,
        new.len() == 10000,
        new[kernel as int]@ == buckets[kernel as int]@.push(p),
        forall|k: int| 0 <= k < 10000 && k != kernel ==> #[trigger] new[k] == buckets[k],
    ensures
        buckets_match(new, produced.push((kernel, p@))),
{
    let pr2 = produced.push((kernel, p@));
    assert(pr2.drop_last() =~= produced);
    assert forall|k: int| 0 <= k < 10000 implies products_view((#[trigger] new[k])@) == kernel_outputs(pr2, k) by {
        if k == kernel {
            assert(products_view(new[k]@) =~= products_view(buckets[k]@).push(p@));
        }
    }
}

proof fn lemma_unit_outputs_none(
    m: ConvMapping,
    len: usize,
    unit: usize,
    kernel: u16,
    data_len: int,
    r: Run,
    s: Seq<i32>,
    adj: i32,
    a: int,
    b: int,
)
    requires
        0 <= a <= b,
        unit_outputs(m, len, unit, kernel, data_len, r, s, adj, a) is None,
    ensures
        unit_outputs(m, len, unit, kernel, data_len, r, s, adj, b) is None,
    decreases b - a,
{
    if a < b {
        lemma_unit_outputs_none(m, len, unit, kernel, data_len, r, s, adj, a, b - 1);
        lemma_unit_outputs_step(m, len, unit, kernel, data_len, r, s, adj, b - 1);
    }
}

proof fn lemma_run_units_none<W>(m: ConvMapping, len: usize, units: Seq<WeightUnitView<W>>, a: int, b: int)
    requires
        0 <= a <= b,
        run_units(m, len, units, a) is None,
    ensures
        run_units(m, len, units, b) is None,
    decreases b - a,
{
    if a < b {
        lemma_run_units_none(m, len, units, a, b - 1);
        lemma_run_units_step(m, len, units, b - 1);
    }
}

/// Where the inputs start for a unit (see `unit_start_point`), found with
/// every step checked.
fn start_point_checked(m: ConvMapping, w: &Walker, s: &Vec<i32>, prev: &Vec<i32>, Ghost(r): Ghost<Run>) -> (res: Option<i32>)
    requires
        r.start_point == w.start_point,
        r.max_visited == w.max_visited@,
    ensures
        res == unit_start_point(m, r, s@, prev@),
{
    let sp = w.start_point as i64;
    if compare_positions(s, &w.max_visited) > 0 {
        let ks = m.k.1 as i64 - m.s.1 as i64;
        if !fits32(ks) {
            return None;
        }
        let a = mul32(ks as i32, m.i.2);
        let g = m.i_pg as i64 - 1;
        if !fits32(a) || !fits32(g) {
            return None;
        }
        let gi = mul32(g as i32, m.i.1);
        if !fits32(gi) {
            return None;
        }
        let b = mul32(gi as i32, m.i.2);
        if !fits32(b) || !fits32(sp + a) || !fits32(sp + a + b) {
            return None;
        }
        Some((sp + a + b) as i32)
    } else {
        let n = if s.len() < prev.len() {
            s.len()
        } else {
            prev.len()
        };
        if n < 3 {
            return None;
        }
        let mut t: usize = 0;
        while t < n
            invariant
                n == (if s@.len() < prev@.len() { s@.len() } else { prev@.len() }),
                lex_order(s@, r.max_visited) <= 0,
                0 <= t <= n,
                forall|t2: int| 0 <= t2 < t ==> #[trigger] fits_i32(prev@[t2] - s@[t2]),
            decreases n - t,
        {
            if !fits32(prev[t] as i64 - s[t] as i64) {
                proof {
                    assert(!fits_i32(prev@[t as int] - s@[t as int]));
                }
                return None;
            }
            t = t + 1;
        }
        assert(fits_i32(prev@[1] - s@[1]) && fits_i32(prev@[2] - s@[2]));
        let d1 = prev[1] - s[1];
        let d2 = prev[2] - s[2];
        let di = mul32(d1, m.i.2);
        if !fits32(di) || !fits32(sp - di) || !fits32(sp - di - d2 as i64) {
            return None;
        }
        Some((sp - di - d2 as i64) as i32)
    }
}

/// The outputs of a worker's convolution units (see `run_units`), grouped
/// by kernel; `None` when the walk cannot be made.
fn conv_plan<W>(len: usize, units: &Vec<WeightUnit<W>>, m: ConvMapping) -> (plan: Option<Vec<Product>>)
    requires
        units@.len() > 0,
    ensures
        plan is Some <==> run_units(m, len, units_view(units@), units@.len() as int) is Some,
        plan matches Some(v) ==> products_view(v@) == by_kernel(
            run_units(m, len, units_view(units@), units@.len() as int)->0.produced,
        ),
{
    let ghost uv = units_view(units@);
    let mut buckets: Vec<Vec<Product>> = Vec::new();
    while buckets.len() < 10000
        invariant
            buckets@.len() <= 10000,
            forall|k: int| 0 <= k < buckets@.len() ==> (#[trigger] buckets@[k])@.len() == 0,
        decreases 10000 - buckets@.len(),
    {
        buckets.push(Vec::new());
    }
    let mut w = Walker {
        start_point: 0,
        max_visited: copy_vec(&units[0].start_pos_in),
        first_row: false,
        out_side_rows: 0,
    };
    let mut prev = copy_vec(&units[0].start_pos_in);
    let ghost mut produced: Seq<(u16, ProductView)> = seq![];
    proof {
        lemma_run_units_step(m, len, uv, 0);
        assert forall|k: int| 0 <= k < 10000 implies products_view((#[trigger] buckets@[k])@) == kernel_outputs(produced, k) by {
            assert(products_view(buckets@[k]@) =~= Seq::<ProductView>::empty());
        }
        assert(run_of(w, prev@, produced) =~= run_units(m, len, uv, 0)->0);
    }
    let mut i: usize = 0;
    while i < units.len()
        invariant
            uv == units_view(units@),
            0 <= i <= uv.len(),
            run_units(m, len, uv, i as int) == Some(run_of(w, prev@, produced)),
            buckets_match(buckets@, produced),
        decreases uv.len() - i,
    {
        proof {
            lemma_run_units_step(m, len, uv, i as int);
        }
        let ghost r0 = run_of(w, prev@, produced);
        let u = &units[i];
        assert(uv[i as int] == u@);
        let mut s = copy_vec(&u.start_pos_in);
        if s.len() < 3 {
            proof {
                lemma_run_units_none(m, len, uv, i + 1, uv.len() as int);
            }
            return None;
        }
        let pr64 = s[1] as i64 + div_i32(m.k.0, 2) as i64;
        let pc64 = s[2] as i64 + div_i32(m.k.1, 2) as i64;
        if !fits32(pr64) || !fits32(pc64) {
            proof {
                lemma_run_units_none(m, len, uv, i + 1, uv.len() as int);
            }
            return None;
        }
        let pr = pr64 as i32;
        let pc = pc64 as i32;
        if u.count == 0 {
            prev = s;
            proof {
                assert(run_of(w, prev@, produced) =~= run_units(m, len, uv, i + 1)->0);
            }
        } else {
            let mut adjustment: i32 = 0;
            if i == 0 && !w.first_row {
                let room = m.i.2 as i64 - pr as i64;
                if !fits32(room) {
                    proof {
                        lemma_run_units_none(m, len, uv, i + 1, uv.len() as int);
                    }
                    return None;
                }
                let osr = if room <= m.k.1 as i64 {
                    m.k.1
                } else {
                    m.s.1
                };
                if !fits32(m.k.1 as i64 - osr as i64) {
                    proof {
                        lemma_run_units_none(m, len, uv, i + 1, uv.len() as int);
                    }
                    return None;
                }
                w.first_row = true;
                w.out_side_rows = osr;
                adjustment = pc;
            }
            let ghost r1 = run_of(w, prev@, produced);
            let sp = if i == 0 {
                start_point_checked(m, &w, &s, &s, Ghost(r1))
            } else {
                start_point_checked(m, &w, &s, &prev, Ghost(r1))
            };
            match sp {
                None => {
                    proof {
                        lemma_run_units_none(m, len, uv, i + 1, uv.len() as int);
                    }
                    return None;
                },
                Some(v) => {
                    w.start_point = v;
                },
            }
            let ghost r2 = run_of(w, prev@, produced);
            let ghost kernel = u.which_kernel;
            let ghost dl = u.data.len() as int;
            let ghost cnt = u.count as int;
            let mut count = u.count;
            let ghost mut done: int = 0;
            proof {
                lemma_unit_outputs_step(m, len, i as usize, kernel, dl, r2, s@, adjustment, 0);
            }
            while count > 0
                invariant
                    uv == units_view(units@),
                    0 <= i < uv.len(),
                    cnt == uv[i as int].count,
                    kernel == uv[i as int].which_kernel,
                    dl == uv[i as int].data.len(),
                    dl == units@[i as int].data@.len(),
                    r2.prev == prev@,
                    0 <= done,
                    done <= cnt || (cnt < 0 && done == 0),
                    count == cnt - done,
                    unit_outputs(m, len, i as usize, kernel, dl, r2, uv[i as int].start_pos_in, adjustment, done) == Some(
                        (run_of(w, prev@, produced), s@),
                    ),
                    buckets_match(buckets@, produced),
                    run_units(m, len, uv, i + 1) == match run_units(m, len, uv, i as int) {
                        None => None,
                        Some(r) => unit_step(m, len, uv, i as int, r),
                    },
                    run_units(m, len, uv, i as int) == Some(r0),
                    unit_step(m, len, uv, i as int, r0) == match unit_outputs(
                        m,
                        len,
                        i as usize,
                        kernel,
                        dl,
                        r2,
                        uv[i as int].start_pos_in,
                        adjustment,
                        cnt,
                    ) {
                        None => None,
                        Some(x) => Some(Run { prev: x.1, ..x.0 }),
                    },
                decreases count,
            {
                proof {
                    lemma_unit_outputs_step(m, len, i as usize, kernel, dl, r2, uv[i as int].start_pos_in, adjustment, done);
                }
                let ghost before = buckets@;
                let op = output_exec(
                    m,
                    len,
                    i,
                    units[i].which_kernel,
                    units[i].data.len(),
                    &mut w,
                    &mut s,
                    adjustment,
                    Ghost(prev@),
                    Ghost(produced),
                );
                let p = match op {
                    None => {
                        proof {
                            lemma_unit_outputs_none(
                                m,
                                len,
                                i as usize,
                                kernel,
                                dl,
                                r2,
                                uv[i as int].start_pos_in,
                                adjustment,
                                done + 1,
                                cnt,
                            );
                            lemma_run_units_none(m, len, uv, i + 1, uv.len() as int);
                        }
                        return None;
                    },
                    Some(p) => p,
                };
                let ghost pv = p@;
                let k = units[i].which_kernel as usize;
                buckets[k].push(p);
                proof {
                    lemma_bucket_push(before, buckets@, produced, kernel, buckets@[k as int]@.last());
                    produced = produced.push((kernel, pv));
                    done = done + 1;
                }
                count = count - 1;
            }
            proof {
                if cnt < 0 {
                    reveal(unit_outputs);
                    assert(unit_outputs(m, len, i as usize, kernel, dl, r2, uv[i as int].start_pos_in, adjustment, cnt)
                        == unit_outputs(m, len, i as usize, kernel, dl, r2, uv[i as int].start_pos_in, adjustment, 0));
                }
            }
            prev = s;
            proof {
                assert(run_of(w, prev@, produced) =~= run_units(m, len, uv, i + 1)->0);
            }
        }
        i = i + 1;
    }
    let mut plan: Vec<Product> = Vec::new();
    let mut k: usize = 0;
    while k < 10000
        invariant
            buckets@.len() == 10000,
            forall|k2: int| k <= k2 < 10000 ==> products_view((#[trigger] buckets@[k2])@) == kernel_outputs(produced, k2),
            0 <= k <= 10000,
            products_view(plan@) == Seq::new(k as nat, |k2: int| kernel_outputs(produced, k2)).flatten(),
        decreases 10000 - k,
    {
        let ghost before = plan@;
        let mut bucket = Vec::new();
        std::mem::swap(&mut bucket, &mut buckets[k]);
        let ghost bv = bucket@;
        plan.append(&mut bucket);
        proof {
            assert(products_view(bv) == kernel_outputs(produced, k as int));
            Seq::new(k as nat, |k2: int| kernel_outputs(produced, k2)).lemma_flatten_push(kernel_outputs(produced, k as int));
            assert(Seq::new((k + 1) as nat, |k2: int| kernel_outputs(produced, k2)) =~= Seq::new(
                k as nat,
                |k2: int| kernel_outputs(produced, k2),
            ).push(kernel_outputs(produced, k as int)));
            assert(products_view(plan@) =~= products_view(before) + products_view(bv));
        }
        k = k + 1;
    }
    Some(plan)
}

/// The reads of unit `i` of a linear layer: input `t` times weight `t`, for
/// every `t` that both hold.
pub open spec fn linear_reads(data_len: int, len: usize) -> Seq<(usize, usize)> {
    let n = if data_len < len { data_len } else { len as int };
    Seq::new(n as nat, |t: int| (t as usize, t as usize))
}

/// The outputs of a worker's linear units, one per unit, in order.
pub open spec fn linear_products<W>(units: Seq<WeightUnitView<W>>, len: usize) -> Seq<(u16, ProductView)> {
    Seq::new(
        units.len(),
        |i: int| (units[i].which_kernel, ProductView { unit: i as usize, reads: linear_reads(units[i].data.len() as int, len) }),
    )
}

fn linear_plan<W>(len: usize, units: &Vec<WeightUnit<W>>) -> (plan: Vec<Product>)
    requires
        forall|i: int| 0 <= i < units@.len() ==> (#[trigger] units@[i]).which_kernel < 10000,
    ensures
        products_view(plan@) == by_kernel(linear_products(units_view(units@), len)),
{
    let ghost uv = units_view(units@);
    let ghost all = linear_products(uv, len);
    let mut buckets: Vec<Vec<Product>> = Vec::new();
    while buckets.len() < 10000
        invariant
            buckets@.len() <= 10000,
            forall|k: int| 0 <= k < buckets@.len() ==> (#[trigger] buckets@[k])@.len() == 0,
        decreases 10000 - buckets@.len(),
    {
        buckets.push(Vec::new());
    }
    proof {
        assert forall|k: int| 0 <= k < 10000 implies products_view((#[trigger] buckets@[k])@) == kernel_outputs(all.take(0), k) by {
            assert(products_view(buckets@[k]@) =~= Seq::<ProductView>::empty());
            assert(all.take(0) =~= Seq::<(u16, ProductView)>::empty());
        }
    }
    let mut i: usize = 0;
    while i < units.len()
        invariant
            uv == units_view(units@),
            all == linear_products(uv, len),
            forall|i2: int| 0 <= i2 < units@.len() ==> (#[trigger] units@[i2]).which_kernel < 10000,
            0 <= i <= units@.len(),
            buckets_match(buckets@, all.take(i as int)),
        decreases units@.len() - i,
    {
        let n = if units[i].data.len() < len {
            units[i].data.len()
        } else {
            len
        };
        let mut reads: Vec<(usize, usize)> = Vec::new();
        let mut t: usize = 0;
        while t < n
            invariant
                0 <= t <= n,
                reads@.len() == t,
                forall|t2: int| 0 <= t2 < t ==> #[trigger] reads@[t2] == (t2 as usize, t2 as usize),
            decreases n - t,
        {
            reads.push((t, t));
            t = t + 1;
        }
        let p = Product { unit: i, reads };
        let ghost pv = p@;
        let k = units[i].which_kernel;
        proof {
            assert(uv[i as int] == units@[i as int]@);
            assert(pv.reads =~= linear_reads(uv[i as int].data.len() as int, len));
            assert(all.take(i + 1) =~= all.take(i as int).push((k, pv)));
        }
        let ghost before = buckets@;
        buckets[k as usize].push(p);
        proof {
            lemma_bucket_push(before, buckets@, all.take(i as int), k, buckets@[k as int]@.last());
        }
        i = i + 1;
    }
    proof {
        assert(all.take(i as int) =~= all);
    }
    let mut plan: Vec<Product> = Vec::new();
    let mut k: usize = 0;
    while k < 10000
        invariant
            buckets@.len() == 10000,
            forall|k2: int| k <= k2 < 10000 ==> products_view((#[trigger] buckets@[k2])@) == kernel_outputs(all, k2),
            0 <= k <= 10000,
            products_view(plan@) == Seq::new(k as nat, |k2: int| kernel_outputs(all, k2)).flatten(),
        decreases 10000 - k,
    {
        let ghost before = plan@;
        let mut bucket = Vec::new();
        std::mem::swap(&mut bucket, &mut buckets[k]);
        let ghost bv = bucket@;
        plan.append(&mut bucket);
        proof {
            Seq::new(k as nat, |k2: int| kernel_outputs(all, k2)).lemma_flatten_push(kernel_outputs(all, k as int));
            assert(Seq::new((k + 1) as nat, |k2: int| kernel_outputs(all, k2)) =~= Seq::new(
                k as nat,
                |k2: int| kernel_outputs(all, k2),
            ).push(kernel_outputs(all, k as int)));
            assert(products_view(plan@) =~= products_view(before) + products_view(bv));
        }
        k = k + 1;
    }
    plan
}

/// What `distributed_computation` computes on a worker with `input_len`
/// inputs and the given units, as decided by the kind of the first unit: for
/// a convolution, the outputs of the walk over the units (`run_units`), and
/// for a linear layer one output per unit (`linear_products`), both grouped
/// by kernel; for a ReLU6 the inputs clamped; for a batch normalisation
/// nothing. `None` when the walk over the convolution units overflows or
/// reads outside the inputs or weights. The worker must have units, and a
/// linear unit's kernel must lie within the 10000 result lists.
pub fn computation_plan<W>(input_len: usize, weight_distribution: &Vec<WeightUnit<W>>) -> (plan: Option<ComputePlan>)
    requires
        weight_distribution@.len() > 0,
        weight_distribution@[0].info@ is Linear ==> forall|i: int|
            0 <= i < weight_distribution@.len() ==> (#[trigger] weight_distribution@[i]).which_kernel < 10000,
    ensures
        match weight_distribution@[0].info@ {
            InfoView::Convolution(m) => {
                &&& plan is Some <==> run_units(m, input_len, units_view(weight_distribution@), weight_distribution@.len() as int) is Some
                &&& plan matches Some(p) ==> p matches ComputePlan::Sums(v) && products_view(v@) == by_kernel(
                    run_units(m, input_len, units_view(weight_distribution@), weight_distribution@.len() as int)->0.produced,
                )
            },
            InfoView::Linear(_) => plan matches Some(p) && p matches ComputePlan::Sums(v) && products_view(v@) == by_kernel(
                linear_products(units_view(weight_distribution@), input_len),
            ),
            InfoView::ReLU6(_) => plan matches Some(ComputePlan::Clamp),
            InfoView::BatchNorm2d(_) => plan matches Some(ComputePlan::Nothing),
        },
{
    match &weight_distribution[0].info {
        InfoWrapper::Convolution(m) => match conv_plan(input_len, weight_distribution, *m) {
            Some(v) => Some(ComputePlan::Sums(v)),
            None => None,
        },
        InfoWrapper::ReLU6(_) => Some(ComputePlan::Clamp),
        InfoWrapper::Linear(_) => Some(ComputePlan::Sums(linear_plan(input_len, weight_distribution))),
        InfoWrapper::BatchNorm2d(_) => Some(ComputePlan::Nothing),
    }
}

/// The positive counts of the first `n` units, added up.
pub open spec fn counted_outputs<W>(units: Seq<WeightUnitView<W>>, n: int) -> int
    decreases n,
{
    if n <= 0 {
        0
    } else {
        counted_outputs(units, n - 1) + if units[n - 1].count > 0 {
            units[n - 1].count as int
        } else {
            0
        }
    }
}

proof fn lemma_unit_outputs_len(
    m: ConvMapping,
    len: usize,
    unit: usize,
    kernel: u16,
    data_len: int,
    r: Run,
    s: Seq<i32>,
    adj: i32,
    n: int,
)
    requires
        unit_outputs(m, len, unit, kernel, data_len, r, s, adj, n) is Some,
    ensures
        ({
            let x = unit_outputs(m, len, unit, kernel, data_len, r, s, adj, n)->0;
            x.0.produced.len() == r.produced.len() + if n > 0 {
                n
            } else {
                0
            }
        }),
    decreases n,
{
    reveal(unit_outputs);
    if n > 0 {
        lemma_unit_outputs_len(m, len, unit, kernel, data_len, r, s, adj, n - 1);
    }
}

/// A worker computes as many outputs of its convolution as its units
/// count: the walk over the first `n` units produces one output for each
/// output counted by a unit (negative counts giving none).
pub proof fn lemma_outputs_match_counts<W>(m: ConvMapping, len: usize, units: Seq<WeightUnitView<W>>, n: int)
    requires
        0 <= n,
        run_units(m, len, units, n) is Some,
    ensures
        run_units(m, len, units, n)->0.produced.len() == counted_outputs(units, n),
    decreases n,
{
    reveal(run_units);
    if n > 0 {
        lemma_run_units_prefix(m, len, units, n - 1, n);
        lemma_outputs_match_counts(m, len, units, n - 1);
        let r = run_units(m, len, units, n - 1)->0;
        let u = units[n - 1];
        if u.count != 0 {
            let init = n - 1 == 0 && !r.first_row;
            let osr = if m.i.2 - padded_row(m, u.start_pos_in) <= m.k.1 { m.k.1 } else { m.s.1 };
            let r1 = if init {
                Run { first_row: true, out_side_rows: osr, ..r }
            } else {
                r
            };
            let adj: i32 = if init { padded_col(m, u.start_pos_in) as i32 } else { 0 };
            let prev = if n - 1 == 0 { u.start_pos_in } else { r.prev };
            let sp = unit_start_point(m, r1, u.start_pos_in, prev)->0;
            lemma_unit_outputs_len(
                m,
                len,
                (n - 1) as usize,
                u.which_kernel,
                u.data.len() as int,
                Run { start_point: sp, ..r1 },
                u.start_pos_in,
                adj,
                u.count as int,
            );
        }
    }
}


/// Every output in `produced` comes from one of the `units`, carries that
/// unit's kernel, and makes one read per window position whose weight is
/// the unit's weight of the same number: the `q`-th read multiplies by the
/// unit's `q`-th weight.
pub open spec fn reads_weights_in_order<W>(m: ConvMapping, units: Seq<WeightUnitView<W>>, produced: Seq<(u16, ProductView)>) -> bool {
    forall|p: int|
        0 <= p < produced.len() ==> {
            let x = #[trigger] produced[p];
            &&& x.1.unit < units.len()
            &&& x.0 == units[x.1.unit as int].which_kernel
            &&& x.1.reads.len() == n_reads(m)
            &&& forall|q: int| 0 <= q < n_reads(m) ==> (#[trigger] x.1.reads[q]).1 == q
        }
}

proof fn lemma_read_weight_index(m: ConvMapping, len: usize, data_len: int, r: Run, s: Seq<i32>, adj: i32, q: int)
    requires
        0 <= q < n_reads(m),
        read_number(m, len, data_len, r, s, adj, q) is Some,
    ensures
        read_number(m, len, data_len, r, s, adj, q).unwrap().1 == q,
{
    let k0 = m.k.0 as int;
    let k1 = m.k.1 as int;
    let g = if m.i_pg > 0 { m.i_pg as int } else { 0 };
    let a = if m.k.0 > 0 { m.k.0 as int } else { 0 };
    let b = if m.k.1 > 0 { m.k.1 as int } else { 0 };
    assert(n_reads(m) == g * a * b);
    assert(a > 0 && b > 0) by (nonlinear_arith)
        requires
            0 <= q < g * a * b,
            g >= 0,
            a >= 0,
            b >= 0,
    ;
    let c = q / (k0 * k1);
    let j = (q / k1) % k0;
    let kk = q % k1;
    vstd::arithmetic::div_mod::lemma_fundamental_div_mod(q, k1);
    vstd::arithmetic::div_mod::lemma_fundamental_div_mod(q / k1, k0);
    vstd::arithmetic::div_mod::lemma_div_denominator(q, k1, k0);
    assert(k1 * k0 == k0 * k1) by (nonlinear_arith);
    assert(c * k0 * k1 + j * k1 + kk == q) by (nonlinear_arith)
        requires
            q == k1 * (q / k1) + kk,
            q / k1 == k0 * ((q / k1) / k0) + j,
            (q / k1) / k0 == c,
    ;
}

proof fn lemma_unit_outputs_in_order<W>(
    m: ConvMapping,
    len: usize,
    units: Seq<WeightUnitView<W>>,
    unit: usize,
    data_len: int,
    r: Run,
    s: Seq<i32>,
    adj: i32,
    n: int,
)
    requires
        unit < units.len(),
        reads_weights_in_order(m, units, r.produced),
        unit_outputs(m, len, unit, units[unit as int].which_kernel, data_len, r, s, adj, n) is Some,
    ensures
        reads_weights_in_order(
            m,
            units,
            unit_outputs(m, len, unit, units[unit as int].which_kernel, data_len, r, s, adj, n).unwrap().0.produced,
        ),
    decreases n,
{
    reveal(unit_outputs);
    let kernel = units[unit as int].which_kernel;
    if n > 0 {
        lemma_unit_outputs_in_order(m, len, units, unit, data_len, r, s, adj, n - 1);
        let x = unit_outputs(m, len, unit, kernel, data_len, r, s, adj, n - 1)->0;
        let y = output_step(m, len, unit, kernel, data_len, x.0, x.1, adj)->0;
        let pv = ProductView { unit, reads: reads_of(m, len, data_len, x.0, x.1, adj) };
        assert(y.0.produced == x.0.produced.push((kernel, pv)));
        assert forall|q: int| 0 <= q < n_reads(m) implies (#[trigger] pv.reads[q]).1 == q by {
            lemma_read_weight_index(m, len, data_len, x.0, x.1, adj, q);
        }
        let pr = y.0.produced;
        assert forall|p: int| 0 <= p < pr.len() implies {
            let z = #[trigger] pr[p];
            &&& z.1.unit < units.len()
            &&& z.0 == units[z.1.unit as int].which_kernel
            &&& z.1.reads.len() == n_reads(m)
            &&& forall|q: int| 0 <= q < n_reads(m) ==> (#[trigger] z.1.reads[q]).1 == q
        } by {
            if p < x.0.produced.len() {
                assert(pr[p] == x.0.produced[p]);
            }
        }
    }
}

/// The weights of every output follow the window: on any worker, each
/// output the walk over the units computes (while the walk can be made)
/// multiplies its `q`-th read by weight `q` of the unit it belongs to, and
/// carries that unit's kernel.
pub proof fn lemma_products_read_weights_in_order<W>(m: ConvMapping, len: usize, units: Seq<WeightUnitView<W>>, n: int)
    requires
        0 <= n <= units.len(),
        units.len() <= usize::MAX,
        run_units(m, len, units, n) is Some,
    ensures
        reads_weights_in_order(m, units, run_units(m, len, units, n)->0.produced),
    decreases n,
{
    reveal(run_units);
    if n > 0 {
        lemma_run_units_prefix(m, len, units, n - 1, n);
        lemma_products_read_weights_in_order(m, len, units, n - 1);
        let r = run_units(m, len, units, n - 1)->0;
        let u = units[n - 1];
        if u.count != 0 {
            let init = n - 1 == 0 && !r.first_row;
            let osr = if m.i.2 - padded_row(m, u.start_pos_in) <= m.k.1 { m.k.1 } else { m.s.1 };
            let r1 = if init {
                Run { first_row: true, out_side_rows: osr, ..r }
            } else {
                r
            };
            let adj: i32 = if init { padded_col(m, u.start_pos_in) as i32 } else { 0 };
            let prev = if n - 1 == 0 { u.start_pos_in } else { r.prev };
            let sp = unit_start_point(m, r1, u.start_pos_in, prev)->0;
            lemma_unit_outputs_in_order(
                m,
                len,
                units,
                (n - 1) as usize,
                u.data.len() as int,
                Run { start_point: sp, ..r1 },
                u.start_pos_in,
                adj,
                u.count as int,
            );
        }
    }
}


/// The weight half of computing a convolution on the workers: take the
/// units that `distribute_weight` hands worker `w` (in any order, as
/// `rearrange_weight` leaves them) and walk them over any inputs. Every
/// output the walk computes belongs to one kernel `j` of the layer, and its
/// `q`-th read multiplies by the weight that every output of kernel `j`
/// meets at the `q`-th position of its window: weight
/// `w[j][channel within the group][kernel row][kernel column]`.
pub proof fn lemma_worker_outputs_use_kernel_weights<W>(
    c: Conv<W>,
    info: InfoView,
    total: int,
    w: int,
    units: Seq<WeightUnitView<W>>,
    m: ConvMapping,
    len: usize,
)
    requires
        distribute_weight_ok(LayerWrapper::Convolution(c), total),
        n_outputs(c.info) > 0,
        0 <= w < total,
        units.to_multiset() == conv_lists(c, info, conv_share(c, total), total)[w].to_multiset(),
        units.len() <= usize::MAX,
        run_units(m, len, units, units.len() as int) is Some,
    ensures
        forall|p: int|
            0 <= p < run_units(m, len, units, units.len() as int)->0.produced.len() ==> {
                let x = #[trigger] run_units(m, len, units, units.len() as int)->0.produced[p];
                let u = units[x.1.unit as int];
                &&& x.1.unit < units.len()
                &&& exists|j: int| #[trigger] holds_kernel(c, u, j) && x.0 == j as u16
                &&& x.1.reads.len() == n_reads(m)
                &&& forall|q: int| 0 <= q < n_reads(m) ==> (#[trigger] x.1.reads[q]).1 == q
            },
{
    broadcast use vstd::seq_lib::group_to_multiset_ensures;

    let ls = conv_lists(c, info, conv_share(c, total), total)[w];
    let pr = run_units(m, len, units, units.len() as int)->0.produced;
    lemma_products_read_weights_in_order(m, len, units, units.len() as int);
    assert forall|p: int| 0 <= p < pr.len() implies {
        let x = #[trigger] pr[p];
        let u = units[x.1.unit as int];
        &&& x.1.unit < units.len()
        &&& exists|j: int| #[trigger] holds_kernel(c, u, j) && x.0 == j as u16
        &&& x.1.reads.len() == n_reads(m)
        &&& forall|q: int| 0 <= q < n_reads(m) ==> (#[trigger] x.1.reads[q]).1 == q
    } by {
        let x = pr[p];
        let i = x.1.unit as int;
        let u = units[i];
        assert(units.contains(u));
        assert(units.to_multiset().count(u) > 0);
        assert(ls.contains(u));
        let k = choose|k: int| 0 <= k < ls.len() && ls[k] == u;
        lemma_units_hold_kernel_weights(c, info, total, w, k);
        let j = choose|j: int| #[trigger] holds_kernel(c, ls[k], j);
        assert(holds_kernel(c, u, j) && x.0 == j as u16);
    }
}


/// Where the reads of an output fall while the walk is in full rows (no
/// first row and no cut window): the window of any output `o` laid out in
/// the worker's inputs as a block of `i.1` rows of `i.2` inputs per channel,
/// from `start_point` on. Read `q` takes the input `start_point` plus the
/// offset, in channels, rows and columns, of the window's `q`-th position
/// from its first, for an odd kernel.
pub proof fn lemma_full_row_reads_follow_window(
    m: ConvMapping,
    len: usize,
    data_len: int,
    r: Run,
    s: Seq<i32>,
    adj: i32,
    o: Seq<i32>,
)
    requires
        reads_ok(m, len, data_len, r, s, adj),
        !r.first_row,
        !is_tail(m, len, r, s),
        r.start_point >= 0,
        m.i.1 >= 0,
        m.i.2 >= 0,
        m.k.0 > 0,
        m.k.0 % 2 == 1,
        m.k.1 > 0,
        m.k.1 % 2 == 1,
        crate::layers::conv_map_ok(m, o),
    ensures
        conv_input_positions(m, o).len() == n_reads(m),
        forall|q: int|
            0 <= q < n_reads(m) ==> {
                let pos = conv_input_positions(m, o);
                (#[trigger] reads_of(m, len, data_len, r, s, adj)[q]).0 == r.start_point + (pos[q][0] - pos[0][0]) * m.i.1 * m.i.2
                    + (pos[q][1] - pos[0][1]) * m.i.2 + (pos[q][2] - pos[0][2])
            },
{
    let k0 = m.k.0 as int;
    let k1 = m.k.1 as int;
    let pos = conv_input_positions(m, o);
    assert(window_len(k0) == k0 && window_len(k1) == k1);
    assert forall|q: int| 0 <= q < n_reads(m) implies {
        (#[trigger] reads_of(m, len, data_len, r, s, adj)[q]).0 == r.start_point + (pos[q][0] - pos[0][0]) * m.i.1 * m.i.2
            + (pos[q][1] - pos[0][1]) * m.i.2 + (pos[q][2] - pos[0][2])
    } by {
        let c = q / (k0 * k1);
        let j = (q / k1) % k0;
        let kk = q % k1;
        assert(read_number(m, len, data_len, r, s, adj, q) is Some);
        assert(read_shift(m, len, r, s, adj, j) == Some(0int));
        let i1 = m.i.1 as int;
        let i2 = m.i.2 as int;
        let base = c * i1 * i2 + j * i2 + kk + r.start_point;
        assert(0 <= c) by (nonlinear_arith)
            requires
                q >= 0,
                k0 > 0,
                k1 > 0,
                c == q / (k0 * k1),
        ;
        vstd::arithmetic::div_mod::lemma_mod_pos_bound(q, k1);
        vstd::arithmetic::div_mod::lemma_mod_pos_bound(q / k1, k0);
        let ip = m.i_pg as int;
        assert(ip > 0 && c < ip) by (nonlinear_arith)
            requires
                0 <= q < n_reads(m),
                n_reads(m) == (if m.i_pg > 0 { m.i_pg as int } else { 0 }) * k0 * k1,
                k0 > 0,
                k1 > 0,
                c == q / (k0 * k1),
                ip == m.i_pg as int,
        ;
        assert(k0 * k1 > 0) by (nonlinear_arith)
            requires
                k0 > 0,
                k1 > 0,
        ;
        assert(0int / (k0 * k1) == 0 && (0int / k1) % k0 == 0 && 0int % k1 == 0);
        let g = crate::layers::conv_group_base(m, o[0] as int);
        assert(pos[q][0] - pos[0][0] == c);
        assert(pos[q][1] - pos[0][1] == j);
        assert(pos[q][2] - pos[0][2] == kk);
        assert(c * i1 * i2 >= 0 && j * i2 >= 0) by (nonlinear_arith)
            requires
                c >= 0,
                j >= 0,
                i1 >= 0,
                i2 >= 0,
        ;
        assert(base >= 0);
    }
}


/// The cell of window position `p` in a read map laid out as planes of
/// `m.i.1` rows of `m.i.2` cells, the position moved by the padding
/// (`py` rows, `px` columns).
pub open spec fn padded_cell(m: ConvMapping, p: Seq<i32>, py: int, px: int) -> int {
    p[0] * m.i.1 * m.i.2 + (p[1] + py) * m.i.2 + (p[2] + px)
}

/// The input half of an output, where the worker reads every cell of its
/// read map and the walk is in full rows: when the walk stands at the cell
/// of the window's first position, every read `q` of the output takes the
/// value of the cell of the window's `q`-th position (its padded input
/// value, or zero for padding), as `distribute_input` hands it to the
/// worker.
pub proof fn lemma_full_row_reads_take_window_cells<T>(
    mapping: Seq<Vec<Vec<u16>>>,
    input: Seq<Vec<Vec<T>>>,
    zero: T,
    k: int,
    m: ConvMapping,
    len: usize,
    data_len: int,
    r: Run,
    s: Seq<i32>,
    adj: i32,
    o: Seq<i32>,
    py: int,
    px: int,
)
    requires
        forall|i: int| 0 <= i < map_cells(mapping) ==> routes_to(#[trigger] map_code(mapping, i), k),
        len == map_cells(mapping),
        reads_ok(m, len, data_len, r, s, adj),
        !r.first_row,
        !is_tail(m, len, r, s),
        r.start_point >= 0,
        m.i.1 >= 0,
        m.i.2 >= 0,
        m.k.0 > 0,
        m.k.0 % 2 == 1,
        m.k.1 > 0,
        m.k.1 % 2 == 1,
        crate::layers::conv_map_ok(m, o),
        r.start_point == padded_cell(m, conv_input_positions(m, o)[0], py, px),
    ensures
        forall|q: int|
            0 <= q < n_reads(m) ==> worker_inputs(mapping, input, zero, k, map_cells(mapping))[(#[trigger] reads_of(
                m,
                len,
                data_len,
                r,
                s,
                adj,
            )[q]).0 as int] == cell_value(mapping, input, zero, padded_cell(m, conv_input_positions(m, o)[q], py, px)),
{
    lemma_full_row_reads_follow_window(m, len, data_len, r, s, adj, o);
    lemma_reading_every_cell(mapping, input, zero, k, map_cells(mapping));
    let pos = conv_input_positions(m, o);
    assert forall|q: int| 0 <= q < n_reads(m) implies worker_inputs(mapping, input, zero, k, map_cells(mapping))[(
    #[trigger] reads_of(m, len, data_len, r, s, adj)[q]).0 as int] == cell_value(
        mapping,
        input,
        zero,
        padded_cell(m, pos[q], py, px),
    ) by {
        let rd = reads_of(m, len, data_len, r, s, adj)[q];
        assert(read_number(m, len, data_len, r, s, adj, q) is Some);
        let a = pos[q][0] as int;
        let b = pos[0][0] as int;
        assert(a * m.i.1 * m.i.2 == (a - b) * m.i.1 * m.i.2 + b * m.i.1 * m.i.2) by (nonlinear_arith);
        assert(pos[q][1] * m.i.2 == (pos[q][1] - pos[0][1]) * m.i.2 + pos[0][1] * m.i.2) by (nonlinear_arith);
        assert((pos[q][1] + py) * m.i.2 == pos[q][1] * m.i.2 + py * m.i.2) by (nonlinear_arith);
        assert((pos[0][1] + py) * m.i.2 == pos[0][1] * m.i.2 + py * m.i.2) by (nonlinear_arith);
        assert(rd.0 as int == padded_cell(m, pos[q], py, px));
    }
}


/// A step of the walk in full rows keeps it at the first cell of the next
/// window. Along a row the walk and the window both move by the column
/// stride. At the end of a row the walk jumps by `k.0 + (s.1 - 1) * i.1`,
/// which lands on the first cell of the next row of windows exactly when
/// the input is square (`i.1 == i.2`) and the row's last window ends at the
/// row's end; the walk's position `s` counts columns from the padding
/// (`px` is the kernel's half width).
pub proof fn lemma_full_row_step_keeps_window(
    m: ConvMapping,
    len: usize,
    unit: usize,
    kernel: u16,
    data_len: int,
    r: Run,
    s: Seq<i32>,
    adj: i32,
    py: int,
)
    requires
        output_step(m, len, unit, kernel, data_len, r, s, adj) is Some,
        !r.first_row,
        r.start_point == padded_cell(m, s, py, trunc_div(m.k.0 as int, 2)),
        s[2] + m.s.0 + trunc_div(m.k.0 as int, 2) + m.k.0 > m.i.2 ==> {
            &&& m.i.1 == m.i.2
            &&& s[2] + trunc_div(m.k.0 as int, 2) + m.k.0 == m.i.2
        },
    ensures
        ({
            let next = output_step(m, len, unit, kernel, data_len, r, s, adj)->0;
            next.0.start_point == padded_cell(m, next.1, py, trunc_div(m.k.0 as int, 2))
        }),
{
    let h = trunc_div(m.k.0 as int, 2);
    let next = output_step(m, len, unit, kernel, data_len, r, s, adj)->0;
    let i1 = m.i.1 as int;
    let i2 = m.i.2 as int;
    let s1 = m.s.1 as int;
    assert((s[1] + s1 + py) * i2 == (s[1] + py) * i2 + s1 * i2) by (nonlinear_arith);
    assert((s1 - 1) * i1 == s1 * i1 - i1) by (nonlinear_arith);
    if s[2] + m.s.0 + h + m.k.0 > m.i.2 {
        assert(s1 * i1 == s1 * i2);
    }
    assert(next.0.start_point == padded_cell(m, next.1, py, h));
}


/// The walk stands at the first cell of the window of its position `s`, in
/// full rows, at a column from which the row's last window ends at the
/// row's end.
pub open spec fn walk_aligned(m: ConvMapping, r: Run, s: Seq<i32>, py: int) -> bool {
    let h = trunc_div(m.k.0 as int, 2);
    &&& !r.first_row
    &&& s.len() == 3
    &&& r.start_point == padded_cell(m, s, py, h)
    &&& s[2] <= m.i.2 - m.k.0 - h
    &&& (m.i.2 - m.k.0 - h - s[2]) % (m.s.0 as int) == 0
}

/// Over a square input whose width less the kernel is a multiple of the
/// column stride, a walk of a unit's outputs that starts at the first cell
/// of its window in full rows stays at the first cell of the window of
/// every later output, which is what `lemma_full_row_reads_take_window_cells`
/// asks of the walk for the output's reads to be its window's cells.
pub proof fn lemma_full_rows_stay_aligned(
    m: ConvMapping,
    len: usize,
    unit: usize,
    kernel: u16,
    data_len: int,
    r: Run,
    s: Seq<i32>,
    adj: i32,
    py: int,
    n: int,
)
    requires
        0 <= n,
        unit_outputs(m, len, unit, kernel, data_len, r, s, adj, n) is Some,
        m.i.1 == m.i.2,
        m.i.2 >= m.k.0,
        m.s.0 > 0,
        (m.i.2 - m.k.0) % (m.s.0 as int) == 0,
        walk_aligned(m, r, s, py),
    ensures
        forall|k: int|
            0 <= k <= n ==> walk_aligned(
                m,
                #[trigger] unit_outputs(m, len, unit, kernel, data_len, r, s, adj, k).unwrap().0,
                unit_outputs(m, len, unit, kernel, data_len, r, s, adj, k).unwrap().1,
                py,
            ),
    decreases n,
{
    lemma_unit_outputs_step(m, len, unit, kernel, data_len, r, s, adj, 0);
    if n > 0 {
        lemma_unit_outputs_prefix(m, len, unit, kernel, data_len, r, s, adj, n - 1, n);
        lemma_full_rows_stay_aligned(m, len, unit, kernel, data_len, r, s, adj, py, n - 1);
        lemma_unit_outputs_step(m, len, unit, kernel, data_len, r, s, adj, n - 1);
        let x = unit_outputs(m, len, unit, kernel, data_len, r, s, adj, n - 1)->0;
        assert(walk_aligned(m, x.0, x.1, py));
        let h = trunc_div(m.k.0 as int, 2);
        let s0 = m.s.0 as int;
        let k0 = m.k.0 as int;
        let i2 = m.i.2 as int;
        let d = i2 - k0 - h - x.1[2];
        if x.1[2] + s0 + h + k0 > i2 {
            vstd::arithmetic::div_mod::lemma_fundamental_div_mod(d, s0);
            assert(d == 0) by (nonlinear_arith)
                requires
                    d >= 0,
                    d < s0,
                    d % s0 == 0,
                    d == s0 * (d / s0) + d % s0,
                    s0 > 0,
            ;
        }
        lemma_full_row_step_keeps_window(m, len, unit, kernel, data_len, x.0, x.1, adj, py);
        let y = unit_outputs(m, len, unit, kernel, data_len, r, s, adj, n)->0;
        assert(y == output_step(m, len, unit, kernel, data_len, x.0, x.1, adj)->0);
        if x.1[2] + s0 + h + k0 > i2 {
            assert(y.1[2] == -h);
            assert(i2 - k0 - h - (-h) == i2 - k0);
        } else {
            assert(y.1[2] == x.1[2] + s0);
            vstd::arithmetic::div_mod::lemma_mod_sub_multiples_vanish(d, s0);
            assert(d - s0 == i2 - k0 - h - y.1[2]);
        }
        assert(walk_aligned(m, y.0, y.1, py));
        assert forall|k: int| 0 <= k <= n implies walk_aligned(
            m,
            #[trigger] unit_outputs(m, len, unit, kernel, data_len, r, s, adj, k).unwrap().0,
            unit_outputs(m, len, unit, kernel, data_len, r, s, adj, k).unwrap().1,
            py,
        ) by {
            if k == n {
                assert(unit_outputs(m, len, unit, kernel, data_len, r, s, adj, k)->0 == y);
            }
        }
    }
}


/// Each output of a linear layer is the whole dot product of its unit's
/// weights with the worker's inputs: the output of unit `i` makes one read
/// for every input channel the unit and the inputs both have, and its
/// `t`-th read pairs input `t` with weight `t`.
pub proof fn lemma_linear_products_are_dot_products<W>(units: Seq<WeightUnitView<W>>, len: usize)
    requires
        units.len() <= usize::MAX,
    ensures
        linear_products(units, len).len() == units.len(),
        forall|i: int|
            0 <= i < units.len() ==> {
                let x = #[trigger] linear_products(units, len)[i];
                &&& x.0 == units[i].which_kernel
                &&& x.1.unit == i
                &&& x.1.reads.len() == if units[i].data.len() < len { units[i].data.len() as int } else { len as int }
                &&& forall|t: int| 0 <= t < x.1.reads.len() ==> #[trigger] x.1.reads[t] == (t as usize, t as usize)
            },
{
}

} // verus!
