use vstd::prelude::*;
use vstd::arithmetic::div_mod::lemma_fundamental_div_mod_converse;
use crate::flat::{copy_vec, flat2};
use crate::layers::{
    window_weights, lemma_window_weights_same_channel,
    layer_weights, rows_equal, Conv, InfoView, InfoWrapper, Linear, LayerWrapper, conv_input_positions, conv_map_ok, kernel_col,
    kernel_row, layer_info, layer_info_ok, layer_output_shape_ok, lemma_flat_index, triple,
};
use crate::num::{fits_i32, trunc_rem};
use crate::operations::{
    lemma_plane_le, lemma_product_of_three, lemma_worker_step, n_outputs, num_per_cpu, out_position, output_count, outputs_per_worker, reads_per_output, shape_product_fits,
    unflatten, worker_at, worker_before,
};

verus! {

/// Number of rows of each plane of a read map (those of its first plane).
pub open spec fn map_rows(mapping: Seq<Vec<Vec<u16>>>) -> int {
    mapping[0]@.len() as int
}

/// Number of columns of each row of a read map (those of its first row).
pub open spec fn map_cols(mapping: Seq<Vec<Vec<u16>>>) -> int {
    mapping[0]@[0]@.len() as int
}

/// Number of cells that a walk over the read map visits: planes times rows
/// times columns, or none when the first plane has no rows.
pub open spec fn map_cells(mapping: Seq<Vec<Vec<u16>>>) -> int {
    if mapping.len() > 0 && map_rows(mapping) > 0 {
        mapping.len() * map_rows(mapping) * map_cols(mapping)
    } else {
        0
    }
}

/// The code of the `n`-th cell of the read map, in row-major order.
pub open spec fn map_code(mapping: Seq<Vec<Vec<u16>>>, n: int) -> u16 {
    let cell = unflatten(n, map_rows(mapping), map_cols(mapping));
    mapping[cell.0]@[cell.1]@[cell.2]
}

/// The top bit of a code marks a padding cell.
pub open spec fn is_padding_code(v: u16) -> bool {
    (v >> 15u16) == 1u16
}

/// A cell that carries an input value: it is read by some worker and is
/// not padding.
pub open spec fn is_data_code(v: u16) -> bool {
    v != 0 && !is_padding_code(v)
}

/// Worker `k` (one of the fifteen low bits) reads the cell with code `v`.
pub open spec fn routes_to(v: u16, k: int) -> bool {
    0 <= k < 15 && ((v >> (k as u16)) & 1u16) == 1u16
}

/// Number of data cells among the first `n` cells of the read map.
#[verifier::opaque]
pub open spec fn data_before(mapping: Seq<Vec<Vec<u16>>>, n: int) -> int
    decreases n,
{
    if n <= 0 {
        0
    } else {
        data_before(mapping, n - 1) + if is_data_code(map_code(mapping, n - 1)) {
            1int
        } else {
            0int
        }
    }
}

/// Column of the `r`-th value taken from the input: the values are taken
/// row after row, with the width of the first row.
pub open spec fn input_col<T>(input: Seq<Vec<Vec<T>>>, r: int) -> int {
    let w = input[0]@[0]@.len() as int;
    if w > 0 {
        r % w
    } else {
        r
    }
}

/// Row of the `r`-th value taken from the input: rows wrap around after
/// the height of the first plane.
pub open spec fn input_row<T>(input: Seq<Vec<Vec<T>>>, r: int) -> int {
    let w = input[0]@[0]@.len() as int;
    let h = input[0]@.len() as int;
    if w > 0 && h > 0 {
        (r / w) % h
    } else if w > 0 {
        r / w
    } else {
        0
    }
}

/// What the `n`-th cell hands to the workers that read it: `zero` for a
/// padding cell, else the next value of the input, taken from the cell's
/// plane.
pub open spec fn cell_value<T>(mapping: Seq<Vec<Vec<u16>>>, input: Seq<Vec<Vec<T>>>, zero: T, n: int) -> T {
    if is_padding_code(map_code(mapping, n)) {
        zero
    } else {
        let a = unflatten(n, map_rows(mapping), map_cols(mapping)).0;
        let r = data_before(mapping, n);
        input[a]@[input_row(input, r)]@[input_col(input, r)]
    }
}

/// The values that worker `k` receives from the first `n` cells of the read
/// map, in order.
#[verifier::opaque]
pub open spec fn worker_inputs<T>(
    mapping: Seq<Vec<Vec<u16>>>,
    input: Seq<Vec<Vec<T>>>,
    zero: T,
    k: int,
    n: int,
) -> Seq<T>
    decreases n,
{
    if n <= 0 {
        seq![]
    } else {
        let prev = worker_inputs(mapping, input, zero, k, n - 1);
        if routes_to(map_code(mapping, n - 1), k) {
            prev.push(cell_value(mapping, input, zero, n - 1))
        } else {
            prev
        }
    }
}

/// The inputs on which `distribute_input` neither panics nor overflows: a
/// non-negative number of workers; every plane and row of the map at least
/// as long as the first; every worker named in the map among the workers;
/// and every value that a data cell takes inside the input.
pub open spec fn distribute_input_ok<T>(
    input: Seq<Vec<Vec<T>>>,
    mapping: Seq<Vec<Vec<u16>>>,
    total: int,
) -> bool {
    let rows = map_rows(mapping);
    let cols = map_cols(mapping);
    &&& mapping.len() > 0 ==> {
        &&& total >= 0
        &&& map_cells(mapping) <= usize::MAX
        &&& forall|a: int| 0 <= a < mapping.len() ==> (#[trigger] mapping[a])@.len() >= rows
        &&& forall|a: int, b: int|
            0 <= a < mapping.len() && 0 <= b < rows ==> (#[trigger] mapping[a]@[b])@.len() >= cols
        &&& forall|n: int, k: int|
            0 <= n < map_cells(mapping) && #[trigger] routes_to(map_code(mapping, n), k) ==> k < total
        &&& forall|n: int|
            0 <= n < map_cells(mapping) && is_data_code(#[trigger] map_code(mapping, n)) ==> {
                let a = unflatten(n, rows, cols).0;
                let r = data_before(mapping, n);
                &&& input.len() > 0
                &&& input[0]@.len() > 0
                &&& a < input.len()
                &&& 0 <= input_row(input, r) < input[a]@.len()
                &&& 0 <= input_col(input, r) < input[a]@[input_row(input, r)]@.len()
            }
    }
}

proof fn lemma_data_before_step(mapping: Seq<Vec<Vec<u16>>>, n: int)
    requires
        n >= 0,
    ensures
        data_before(mapping, n + 1) == data_before(mapping, n) + if is_data_code(map_code(mapping, n)) {
            1int
        } else {
            0int
        },
        data_before(mapping, n) >= 0,
        data_before(mapping, n) <= n,
    decreases n,
{
    reveal(data_before);
    if n > 0 {
        lemma_data_before_step(mapping, n - 1);
    }
}

proof fn lemma_worker_inputs_step<T>(
    mapping: Seq<Vec<Vec<u16>>>,
    input: Seq<Vec<Vec<T>>>,
    zero: T,
    k: int,
    n: int,
)
    requires
        n >= 0,
    ensures
        worker_inputs(mapping, input, zero, k, n + 1) == if routes_to(map_code(mapping, n), k) {
            worker_inputs(mapping, input, zero, k, n).push(cell_value(mapping, input, zero, n))
        } else {
            worker_inputs(mapping, input, zero, k, n)
        },
{
    reveal(worker_inputs);
}

proof fn lemma_worker_inputs_zero<T>(mapping: Seq<Vec<Vec<u16>>>, input: Seq<Vec<Vec<T>>>, zero: T, k: int)
    ensures
        worker_inputs(mapping, input, zero, k, 0) == Seq::<T>::empty(),
{
    reveal(worker_inputs);
}

proof fn lemma_no_route_of_zero(k: u16)
    by (bit_vector)
    requires
        k < 15,
    ensures
        ((0u16 >> k) & 1u16) != 1u16,
{
}

/// Moving on by one value keeps the column and row counters in step with
/// `input_col` and `input_row`.
proof fn lemma_input_step(r: int, w: int, h: int, ix: int, iy: int)
    requires
        r >= 0,
        w >= 0,
        h > 0,
        ix == (if w > 0 { r % w } else { r }),
        iy == (if w > 0 { (r / w) % h } else { 0 }),
    ensures
        ({
            let ix1 = ix + 1;
            let (nx, ny) = if ix1 == w {
                if iy + 1 == h {
                    (0int, 0int)
                } else {
                    (0int, iy + 1)
                }
            } else {
                (ix1, iy)
            };
            &&& nx == (if w > 0 { (r + 1) % w } else { r + 1 })
            &&& ny == (if w > 0 { ((r + 1) / w) % h } else { 0 })
        }),
{
    if w > 0 {
        let q = r / w;
        vstd::arithmetic::div_mod::lemma_fundamental_div_mod(r, w);
        vstd::arithmetic::div_mod::lemma_mod_pos_bound(r, w);
        vstd::arithmetic::div_mod::lemma_div_pos_is_pos(r, w);
        if r % w + 1 == w {
            assert(r + 1 == (q + 1) * w + 0) by (nonlinear_arith)
                requires
                    r == w * q + r % w,
                    r % w + 1 == w,
            ;
            lemma_fundamental_div_mod_converse(r + 1, w, q + 1, 0);
            vstd::arithmetic::div_mod::lemma_fundamental_div_mod(q, h);
            vstd::arithmetic::div_mod::lemma_mod_pos_bound(q, h);
            let qq = q / h;
            if q % h + 1 == h {
                assert(q + 1 == (qq + 1) * h + 0) by (nonlinear_arith)
                    requires
                        q == h * qq + q % h,
                        q % h + 1 == h,
                ;
                lemma_fundamental_div_mod_converse(q + 1, h, qq + 1, 0);
            } else {
                assert(q + 1 == qq * h + (q % h + 1)) by (nonlinear_arith)
                    requires
                        q == h * qq + q % h,
                ;
                lemma_fundamental_div_mod_converse(q + 1, h, qq, q % h + 1);
            }
        } else {
            assert(r + 1 == q * w + (r % w + 1)) by (nonlinear_arith)
                requires
                    r == w * q + r % w,
            ;
            lemma_fundamental_div_mod_converse(r + 1, w, q, r % w + 1);
        }
    }
}

/// Hands each worker the input values it needs, following the read map of
/// `get_input_mapping`: the cells are walked in row-major order, and each
/// cell that some workers read gives each of them, in order of worker,
/// `zero` when the cell is padding, else the next value of the input
/// (`worker_inputs`). An empty map means that every worker reads the whole
/// input, and gives no distribution.
pub fn distribute_input<T: Copy>(
    input: Vec<Vec<Vec<T>>>,
    mapping: Vec<Vec<Vec<u16>>>,
    total_cpu_count: i32,
    zero: T,
) -> (dist: Vec<Vec<T>>)
    requires
        distribute_input_ok(input@, mapping@, total_cpu_count as int),
    ensures
        mapping@.len() == 0 ==> dist@.len() == 0,
        mapping@.len() > 0 ==> {
            &&& dist@.len() == total_cpu_count
            &&& forall|k: int|
                0 <= k < total_cpu_count ==> (#[trigger] dist@[k])@ == worker_inputs(
                    mapping@,
                    input@,
                    zero,
                    k,
                    map_cells(mapping@),
                )
        },
{
    if mapping.len() == 0 {
        return Vec::new();
    }
    let ghost mp = mapping@;
    let ghost inp = input@;
    let total = total_cpu_count as usize;
    let mut dist: Vec<Vec<T>> = Vec::new();
    while dist.len() < total
        invariant
            dist@.len() <= total,
            forall|k: int| 0 <= k < dist@.len() ==> (#[trigger] dist@[k])@ == Seq::<T>::empty(),
        decreases total - dist@.len(),
    {
        dist.push(Vec::new());
    }
    proof {
        assert forall|k: int| 0 <= k < total implies (#[trigger] dist@[k])@ == worker_inputs(mp, inp, zero, k, 0) by {
            lemma_worker_inputs_zero(mp, inp, zero, k);
        }
        reveal(data_before);
        assert(data_before(mp, 0) == 0);
        let w = inp[0]@[0]@.len() as int;
        let h = inp[0]@.len() as int;
        if w > 0 {
            vstd::arithmetic::div_mod::lemma_small_mod(0, w as nat);
            vstd::arithmetic::div_mod::lemma_basic_div(0, w);
            if h > 0 {
                vstd::arithmetic::div_mod::lemma_small_mod(0, h as nat);
            }
        }
        assert(input_col(inp, 0) == 0 && input_row(inp, 0) == 0);
        assert(0 * map_rows(mp) * map_cols(mp) == 0) by (nonlinear_arith);
    }
    let depth = mapping.len();
    let rows = mapping[0].len();
    let mut i_x: usize = 0;
    let mut i_y: usize = 0;
    let mut i: usize = 0;
    while i < depth
        invariant
            distribute_input_ok(inp, mp, total_cpu_count as int),
            mp == mapping@,
            inp == input@,
            depth == mp.len(),
            depth > 0,
            rows == map_rows(mp),
            total == total_cpu_count,
            dist@.len() == total,
            0 <= i <= depth,
            i_x == input_col(inp, data_before(mp, i * rows * map_cols(mp))),
            i_y == input_row(inp, data_before(mp, i * rows * map_cols(mp))),
            forall|k: int|
                0 <= k < total ==> (#[trigger] dist@[k])@ == worker_inputs(
                    mp,
                    inp,
                    zero,
                    k,
                    i * rows * map_cols(mp),
                ),
        decreases depth - i,
    {
        let mut j: usize = 0;
        while j < rows
            invariant
                distribute_input_ok(inp, mp, total_cpu_count as int),
                mp == mapping@,
                inp == input@,
                depth == mp.len(),
                rows == map_rows(mp),
                total == total_cpu_count,
                dist@.len() == total,
                0 <= i < depth,
                0 <= j <= rows,
                i_x == input_col(inp, data_before(mp, (i * rows + j) * map_cols(mp))),
                i_y == input_row(inp, data_before(mp, (i * rows + j) * map_cols(mp))),
                forall|k: int|
                    0 <= k < total ==> (#[trigger] dist@[k])@ == worker_inputs(
                        mp,
                        inp,
                        zero,
                        k,
                        (i * rows + j) * map_cols(mp),
                    ),
            decreases rows - j,
        {
            let cols = mapping[0][0].len();
            let mut m: usize = 0;
            while m < cols
                invariant
                    distribute_input_ok(inp, mp, total_cpu_count as int),
                    mp == mapping@,
                    inp == input@,
                    depth == mp.len(),
                    rows == map_rows(mp),
                    cols == map_cols(mp),
                    rows > 0,
                    total == total_cpu_count,
                    dist@.len() == total,
                    0 <= i < depth,
                    0 <= j < rows,
                    0 <= m <= cols,
                    i_x == input_col(inp, data_before(mp, (i * rows + j) * cols + m)),
                    i_y == input_row(inp, data_before(mp, (i * rows + j) * cols + m)),
                    forall|k: int|
                        0 <= k < total ==> (#[trigger] dist@[k])@ == worker_inputs(
                            mp,
                            inp,
                            zero,
                            k,
                            (i * rows + j) * cols + m,
                        ),
                decreases cols - m,
            {
                let ghost n = (i * rows + j) * cols + m;
                proof {
                    lemma_flat_index(i as int, j as int, m as int, rows as int, cols as int);
                    crate::operations::lemma_index_in_box(i as int, j as int, m as int, depth as int, rows as int, cols as int);
                    lemma_data_before_step(mp, n);
                    assert(map_cells(mp) == depth * rows * cols);
                    assert(unflatten(n, rows as int, cols as int) == (i as int, j as int, m as int));
                }
                let map = mapping[i][j][m];
                assert(map == map_code(mp, n));
                if map == 0 {
                    proof {
                        assert forall|k: int| 0 <= k < total implies (#[trigger] dist@[k])@ == worker_inputs(
                            mp,
                            inp,
                            zero,
                            k,
                            n + 1,
                        ) by {
                            lemma_worker_inputs_step(mp, inp, zero, k, n);
                            if 0 <= k < 15 {
                                lemma_no_route_of_zero(k as u16);
                            }
                        }
                    }
                } else {
                    let padding_flag = (map >> 15u16) == 1u16;
                    let mut kk: u16 = 0;
                    while kk < 15
                        invariant
                            distribute_input_ok(inp, mp, total_cpu_count as int),
                            mp == mapping@,
                            inp == input@,
                            rows == map_rows(mp),
                            cols == map_cols(mp),
                            total == total_cpu_count,
                            dist@.len() == total,
                            0 <= i < depth,
                            depth == mp.len(),
                            0 <= n < map_cells(mp),
                            unflatten(n, rows as int, cols as int) == (i as int, j as int, m as int),
                            map == map_code(mp, n),
                            map != 0,
                            padding_flag == is_padding_code(map),
                            i_x == input_col(inp, data_before(mp, n)),
                            i_y == input_row(inp, data_before(mp, n)),
                            0 <= kk <= 15,
                            forall|k: int|
                                0 <= k < total ==> (#[trigger] dist@[k])@ == if k < kk {
                                    worker_inputs(mp, inp, zero, k, n + 1)
                                } else {
                                    worker_inputs(mp, inp, zero, k, n)
                                },
                        decreases 15 - kk,
                    {
                        proof {
                            lemma_worker_inputs_step(mp, inp, zero, kk as int, n);
                        }
                        if (map >> kk) & 1u16 == 1u16 {
                            assert(routes_to(map_code(mp, n), kk as int));
                            let v = if padding_flag {
                                zero
                            } else {
                                assert(is_data_code(map_code(mp, n)));
                                input[i][i_y][i_x]
                            };
                            assert(v == cell_value(mp, inp, zero, n));
                            dist[kk as usize].push(v);
                        } else {
                            assert(!routes_to(map_code(mp, n), kk as int));
                        }
                        kk = kk + 1;
                    }
                    proof {
                        assert forall|k: int| 0 <= k < total implies (#[trigger] dist@[k])@ == worker_inputs(
                            mp,
                            inp,
                            zero,
                            k,
                            n + 1,
                        ) by {
                            lemma_worker_inputs_step(mp, inp, zero, k, n);
                        }
                    }
                    if !padding_flag {
                        let ghost r = data_before(mp, n);
                        let w = input[0][0].len();
                        let h = input[0].len();
                        proof {
                            lemma_input_step(r, w as int, h as int, i_x as int, i_y as int);
                        }
                        i_x = i_x + 1;
                        if i_x == w {
                            i_x = 0;
                            i_y = i_y + 1;
                            if i_y == h {
                                i_x = 0;
                                i_y = 0;
                            }
                        }
                    }
                }
                m = m + 1;
            }
            proof {
                assert((i * rows + j) * cols + cols == (i * rows + j + 1) * cols) by (nonlinear_arith);
            }
            j = j + 1;
        }
        proof {
            assert((i * rows + rows) * map_cols(mp) == (i + 1) * rows * map_cols(mp)) by (nonlinear_arith);
        }
        i = i + 1;
    }
    proof {
        if rows == 0 {
            assert(map_cells(mp) == 0);
            assert(depth * rows * map_cols(mp) == 0) by (nonlinear_arith)
                requires
                    rows == 0,
            ;
        } else {
            assert(map_cells(mp) == depth * rows * map_cols(mp));
        }
    }
    dist
}

/// The weights that one worker needs for a run of outputs of one kernel:
/// the kernel's weights `data`, its output channel `which_kernel`, the
/// number of outputs `count`, and the first input position the run reads.
pub struct WeightUnit<W> {
    pub data: Vec<W>,
    pub which_kernel: u16,
    pub count: i32,
    pub start_pos_in: Vec<i32>,
    pub info: InfoWrapper,
}

/// The mathematical value of a `WeightUnit`.
pub struct WeightUnitView<W> {
    pub data: Seq<W>,
    pub which_kernel: u16,
    pub count: i32,
    pub start_pos_in: Seq<i32>,
    pub info: InfoView,
}

impl<W> View for WeightUnit<W> {
    type V = WeightUnitView<W>;

    open spec fn view(&self) -> WeightUnitView<W> {
        WeightUnitView {
            data: self.data@,
            which_kernel: self.which_kernel,
            count: self.count,
            start_pos_in: self.start_pos_in@,
            info: self.info@,
        }
    }
}

/// The values of a sequence of units.
pub open spec fn units_view<W>(s: Seq<WeightUnit<W>>) -> Seq<WeightUnitView<W>> {
    s.map_values(|u: WeightUnit<W>| u@)
}

impl<W: Copy> WeightUnit<W> {
    /// A copy of this unit.
    pub fn copied(&self) -> (r: WeightUnit<W>)
        ensures
            r@ == self@,
    {
        WeightUnit {
            data: copy_vec(&self.data),
            which_kernel: self.which_kernel,
            count: self.count,
            start_pos_in: copy_vec(&self.start_pos_in),
            info: self.info.copied(),
        }
    }
}

/// Lexicographic comparison of two positions, as the ordering of `Vec`
/// compares them: -1, 0 or 1 as `a` comes before, equals or comes after `b`
/// (a proper prefix comes first).
pub open spec fn lex_order(a: Seq<i32>, b: Seq<i32>) -> int
    decreases a.len(),
{
    if a.len() == 0 {
        if b.len() == 0 {
            0
        } else {
            -1
        }
    } else if b.len() == 0 {
        1
    } else if a[0] < b[0] {
        -1
    } else if a[0] > b[0] {
        1
    } else {
        lex_order(a.drop_first(), b.drop_first())
    }
}

/// Swapping the operands negates the comparison.
pub proof fn lemma_lex_antisym(a: Seq<i32>, b: Seq<i32>)
    ensures
        lex_order(a, b) == -lex_order(b, a),
        -1 <= lex_order(a, b) <= 1,
    decreases a.len(),
{
    if a.len() > 0 && b.len() > 0 && a[0] == b[0] {
        lemma_lex_antisym(a.drop_first(), b.drop_first());
    }
}

/// The comparison is transitive, strictly so when one step is strict.
pub proof fn lemma_lex_trans(a: Seq<i32>, b: Seq<i32>, c: Seq<i32>)
    requires
        lex_order(a, b) <= 0,
        lex_order(b, c) <= 0,
    ensures
        lex_order(a, c) <= 0,
        lex_order(a, b) < 0 || lex_order(b, c) < 0 ==> lex_order(a, c) < 0,
    decreases a.len(),
{
    if a.len() > 0 && b.len() > 0 && c.len() > 0 && a[0] == b[0] && b[0] == c[0] {
        lemma_lex_trans(a.drop_first(), b.drop_first(), c.drop_first());
    }
}

/// Compares two positions lexicographically (see `lex_order`).
pub fn compare_positions(a: &Vec<i32>, b: &Vec<i32>) -> (r: i8)
    ensures
        r == lex_order(a@, b@),
{
    let mut i: usize = 0;
    proof {
        assert(a@.skip(0) =~= a@);
        assert(b@.skip(0) =~= b@);
    }
    loop
        invariant
            0 <= i <= a@.len(),
            i <= b@.len(),
            lex_order(a@, b@) == lex_order(a@.skip(i as int), b@.skip(i as int)),
        decreases a@.len() - i,
    {
        if i == a.len() {
            if i == b.len() {
                return 0;
            } else {
                return -1;
            }
        }
        if i == b.len() {
            return 1;
        }
        if a[i] < b[i] {
            return -1;
        }
        if a[i] > b[i] {
            return 1;
        }
        proof {
            assert(a@.skip(i as int).drop_first() =~= a@.skip(i + 1));
            assert(b@.skip(i as int).drop_first() =~= b@.skip(i + 1));
        }
        i = i + 1;
    }
}

/// `after` is the stable sort of `before` by first input position, with
/// `p` saying where each element came from: a permutation, the positions
/// in order, and units with equal positions in their former order.
pub open spec fn sorts_stably<W>(before: Seq<WeightUnitView<W>>, after: Seq<WeightUnitView<W>>, p: Seq<int>) -> bool {
    &&& after.len() == before.len()
    &&& p.len() == before.len()
    &&& forall|i: int| 0 <= i < p.len() ==> 0 <= #[trigger] p[i] < before.len() && after[i] == before[p[i]]
    &&& forall|i: int, j: int| 0 <= i < j < p.len() ==> #[trigger] p[i] != #[trigger] p[j]
    &&& forall|i: int, j: int|
        0 <= i < j < after.len() ==> lex_order(#[trigger] after[i].start_pos_in, #[trigger] after[j].start_pos_in) <= 0
    &&& forall|i: int, j: int|
        0 <= i < j < after.len() && lex_order(#[trigger] after[i].start_pos_in, #[trigger] after[j].start_pos_in) == 0
            ==> p[i] < p[j]
}

proof fn lemma_insert_multiset<A>(s: Seq<A>, pos: int, x: A)
    requires
        0 <= pos <= s.len(),
    ensures
        s.insert(pos, x).to_multiset() == s.to_multiset().insert(x),
{
    broadcast use vstd::seq_lib::group_to_multiset_ensures;

    let t = s.insert(pos, x);
    assert(t.remove(pos) =~= s);
    assert(t.to_multiset().count(x) > 0) by {
        assert(t[pos] == x);
        assert(t.contains(x));
    }
    assert(t.to_multiset() =~= t.remove(pos).to_multiset().insert(x));
}

proof fn lemma_insert_stably<W>(
    prefix: Seq<WeightUnitView<W>>,
    sorted: Seq<WeightUnitView<W>>,
    p: Seq<int>,
    x: WeightUnitView<W>,
    pos: int,
)
    requires
        sorts_stably(prefix, sorted, p),
        0 <= pos <= sorted.len(),
        forall|i: int| 0 <= i < pos ==> lex_order(#[trigger] sorted[i].start_pos_in, x.start_pos_in) <= 0,
        pos < sorted.len() ==> lex_order(sorted[pos].start_pos_in, x.start_pos_in) > 0,
    ensures
        sorts_stably(prefix.push(x), sorted.insert(pos, x), p.insert(pos, prefix.len() as int)),
{
    let k = prefix.len() as int;
    let s2 = sorted.insert(pos, x);
    let p2 = p.insert(pos, k);
    let pre2 = prefix.push(x);
    assert forall|j: int| pos <= j < sorted.len() implies lex_order(x.start_pos_in, #[trigger] sorted[j].start_pos_in) < 0 by {
        lemma_lex_antisym(sorted[pos].start_pos_in, x.start_pos_in);
        if j > pos {
            assert(lex_order(sorted[pos].start_pos_in, sorted[j].start_pos_in) <= 0);
            lemma_lex_trans(x.start_pos_in, sorted[pos].start_pos_in, sorted[j].start_pos_in);
        }
    }
    assert forall|i: int| 0 <= i < p2.len() implies 0 <= #[trigger] p2[i] < pre2.len() && s2[i] == pre2[p2[i]] by {
        if i < pos {
            assert(p2[i] == p[i] && s2[i] == sorted[i]);
        } else if i > pos {
            assert(p2[i] == p[i - 1] && s2[i] == sorted[i - 1]);
        }
    }
    assert forall|i: int, j: int| 0 <= i < j < p2.len() implies #[trigger] p2[i] != #[trigger] p2[j] by {
        if i < pos && j > pos {
            assert(p2[j] == p[j - 1]);
        } else if j < pos {
        } else if i > pos {
            assert(p2[i] == p[i - 1] && p2[j] == p[j - 1]);
        } else if i == pos {
            assert(p2[j] == p[j - 1]);
        } else {
            assert(p2[i] == p[i]);
        }
    }
    assert forall|i: int, j: int| 0 <= i < j < s2.len() implies lex_order(
        #[trigger] s2[i].start_pos_in,
        #[trigger] s2[j].start_pos_in,
    ) <= 0 && (lex_order(s2[i].start_pos_in, s2[j].start_pos_in) == 0 ==> p2[i] < p2[j]) by {
        if j < pos {
            assert(s2[i] == sorted[i] && s2[j] == sorted[j] && p2[i] == p[i] && p2[j] == p[j]);
        } else if j == pos {
            assert(s2[i] == sorted[i] && p2[i] == p[i]);
        } else if i == pos {
            assert(s2[j] == sorted[j - 1]);
        } else if i < pos {
            assert(s2[i] == sorted[i] && s2[j] == sorted[j - 1] && p2[i] == p[i] && p2[j] == p[j - 1]);
            lemma_lex_antisym(x.start_pos_in, sorted[j - 1].start_pos_in);
            lemma_lex_trans(sorted[i].start_pos_in, x.start_pos_in, sorted[j - 1].start_pos_in);
        } else {
            assert(s2[i] == sorted[i - 1] && s2[j] == sorted[j - 1] && p2[i] == p[i - 1] && p2[j] == p[j - 1]);
        }
    }
}

/// Sorts the units by their first input position, lexicographically, keeping
/// units with equal positions in their order (a stable sort).
pub fn rearrange_weight<W: Copy>(weight: &mut Vec<WeightUnit<W>>)
    ensures
        exists|p: Seq<int>| sorts_stably(units_view(old(weight)@), units_view(final(weight)@), p),
        units_view(final(weight)@).to_multiset() == units_view(old(weight)@).to_multiset(),
{
    let ghost orig = units_view(weight@);
    let ghost n = weight@.len();
    let mut sorted: Vec<WeightUnit<W>> = Vec::new();
    let ghost mut p: Seq<int> = seq![];
    let ghost mut k: int = 0;
    proof {
        assert(orig.skip(0) =~= units_view(weight@));
        assert(orig.take(0) =~= Seq::<WeightUnitView<W>>::empty());
        assert(units_view(sorted@) =~= Seq::<WeightUnitView<W>>::empty());
    }
    while weight.len() > 0
        invariant
            orig.len() == n,
            0 <= k <= n,
            units_view(weight@) == orig.skip(k),
            sorts_stably(orig.take(k), units_view(sorted@), p),
            units_view(sorted@).to_multiset() == orig.take(k).to_multiset(),
        decreases n - k,
    {
        let ghost old_w = weight@;
        proof {
            assert(units_view(old_w).len() == old_w.len());
            assert(orig.skip(k).len() == n - k);
            assert(units_view(old_w)[0] == orig.skip(k)[0]);
        }
        let x = weight.remove(0);
        proof {
            assert(x == old_w[0]);
            assert(x@ == orig[k]);
            assert(weight@ =~= old_w.subrange(1, old_w.len() as int));
            assert forall|i: int| 0 <= i < weight@.len() implies #[trigger] units_view(weight@)[i] == orig.skip(k + 1)[i] by {
                assert(units_view(old_w)[i + 1] == orig.skip(k)[i + 1]);
            }
            assert(units_view(weight@) =~= orig.skip(k + 1));
        }
        let mut pos: usize = 0;
        loop
            invariant
                0 <= pos <= sorted@.len(),
                forall|i: int| 0 <= i < pos ==> lex_order(#[trigger] units_view(sorted@)[i].start_pos_in, x@.start_pos_in) <= 0,
            ensures
                0 <= pos <= sorted@.len(),
                forall|i: int| 0 <= i < pos ==> lex_order(#[trigger] units_view(sorted@)[i].start_pos_in, x@.start_pos_in) <= 0,
                pos < sorted@.len() ==> lex_order(units_view(sorted@)[pos as int].start_pos_in, x@.start_pos_in) > 0,
            decreases sorted@.len() - pos,
        {
            if pos == sorted.len() {
                break;
            }
            let c = compare_positions(&sorted[pos].start_pos_in, &x.start_pos_in);
            if c > 0 {
                break;
            }
            pos = pos + 1;
        }
        let ghost before = units_view(sorted@);
        let ghost xv = x@;
        proof {
            lemma_insert_stably(orig.take(k), before, p, xv, pos as int);
            assert(orig.take(k).push(xv) =~= orig.take(k + 1));
        }
        sorted.insert(pos, x);
        proof {
            assert(units_view(sorted@) =~= before.insert(pos as int, xv));
            lemma_insert_multiset(before, pos as int, xv);
            assert(orig.take(k + 1) =~= orig.take(k).push(xv));
            vstd::seq_lib::to_multiset_build(orig.take(k), xv);
            p = p.insert(pos as int, k);
            k = k + 1;
        }
    }
    proof {
        assert(orig.take(k) =~= orig);
    }
    *weight = sorted;
}

/// The unit that a linear layer hands out for output channel `j`: row `j`
/// of the weights, the `c_in` weights that feed output `j`, read at
/// `j * c_in + k` for each input channel `k`.
pub open spec fn linear_unit<W>(c: Linear<W>, info: InfoView, j: int) -> WeightUnitView<W> {
    let n = c.info.c_in as int;
    let w = flat2(c.w@);
    WeightUnitView {
        data: Seq::new(if n > 0 { n as nat } else { 0 }, |k: int| w[j * n + k]),
        which_kernel: j as u16,
        count: 0,
        start_pos_in: seq![],
        info,
    }
}

/// How many of the first `n` output channels go to worker `w` when each
/// worker takes `col` consecutive channels.
pub open spec fn linear_share(n: int, col: int, w: int) -> int {
    if col > 0 && n > w * col {
        if (w + 1) * col < n {
            col
        } else {
            n - w * col
        }
    } else {
        0
    }
}

/// The units that worker `w` gets from the first `n` output channels of a
/// linear layer, `col` channels per worker.
pub open spec fn linear_units<W>(c: Linear<W>, info: InfoView, n: int, col: int, w: int) -> Seq<WeightUnitView<W>> {
    Seq::new(linear_share(n, col, w) as nat, |i: int| linear_unit(c, info, w * col + i))
}

/// The weights that a worker needs for output `t` of the convolution: for
/// each input position the output reads, the weight of the output's kernel
/// at the position's channel within its group, kernel row and kernel column.
pub open spec fn conv_kernel_data<W>(c: Conv<W>, t: int) -> Seq<W> {
    let m = c.info;
    let pos = conv_input_positions(m, out_position(m, t));
    window_weights(c, pos, t / (m.o.1 * m.o.2))
}

/// The weights of the kernel of output `t` can be read for the positions
/// the output reads.
pub open spec fn conv_kernel_ok<W>(c: Conv<W>, t: int) -> bool {
    let m = c.info;
    let pos = conv_input_positions(m, out_position(m, t));
    let j = t / (m.o.1 * m.o.2);
    &&& m.k.0 != 0
    &&& m.k.1 != 0
    &&& m.i_pg != 0
    &&& 0 <= j < c.w@.len()
    &&& forall|q: int|
        0 <= q < pos.len() ==> {
            let ch = trunc_rem((#[trigger] pos[q])[0] as int, m.i_pg as int);
            &&& !(pos[q][0] == i32::MIN && m.i_pg == -1)
            &&& 0 <= ch < c.w@[j]@.len()
            &&& 0 <= kernel_row(m, q) < c.w@[j]@[ch]@.len()
            &&& 0 <= kernel_col(m, q) < c.w@[j]@[ch]@[kernel_row(m, q)]@.len()
        }
}

/// The units handed out so far over the outputs of a convolution: one list
/// per worker, the unit being filled, and the worker it goes to.
pub struct Deal<W> {
    pub lists: Seq<Seq<WeightUnitView<W>>>,
    pub cur: WeightUnitView<W>,
    pub worker: int,
}

/// Before the first output: every list empty, and an empty unit.
pub open spec fn deal_start<W>(total: int, info: InfoView) -> Deal<W> {
    Deal {
        lists: Seq::new(total as nat, |w: int| Seq::<WeightUnitView<W>>::empty()),
        cur: WeightUnitView { data: seq![], which_kernel: 0, count: 0, start_pos_in: seq![], info },
        worker: 0,
    }
}

/// Output `t` of the convolution. When it goes to a new worker, the unit
/// being filled is handed to the previous worker and goes on from the
/// output's first input position. When it starts a kernel, the unit being
/// filled (if it holds weights) is handed to the current worker, and a new
/// unit starts with the kernel's weights at the output's first input
/// position. Either way the output is counted in the unit being filled.
pub open spec fn deal_step<W>(c: Conv<W>, num: int, d: Deal<W>, t: int) -> Deal<W> {
    let m = c.info;
    let plane = m.o.1 * m.o.2;
    let pos0 = conv_input_positions(m, out_position(m, t))[0];
    let w = worker_at(t, num);
    let d1 = if w != d.worker {
        Deal {
            lists: d.lists.update(d.worker, d.lists[d.worker].push(d.cur)),
            cur: WeightUnitView { start_pos_in: pos0, count: 0, ..d.cur },
            worker: w,
        }
    } else {
        d
    };
    let d2 = if t % plane == 0 {
        Deal {
            lists: if d1.cur.data.len() > 0 {
                d1.lists.update(d1.worker, d1.lists[d1.worker].push(d1.cur))
            } else {
                d1.lists
            },
            cur: WeightUnitView {
                data: conv_kernel_data(c, t),
                which_kernel: (t / plane) as u16,
                count: 0,
                start_pos_in: pos0,
                info: d1.cur.info,
            },
            worker: d1.worker,
        }
    } else {
        d1
    };
    Deal { cur: WeightUnitView { count: (d2.cur.count + 1) as i32, ..d2.cur }, ..d2 }
}

/// The units handed out over the first `n` outputs of the convolution.
#[verifier::opaque]
pub open spec fn deal<W>(c: Conv<W>, info: InfoView, num: int, total: int, n: int) -> Deal<W>
    decreases n,
{
    if n <= 0 {
        deal_start(total, info)
    } else {
        deal_step(c, num, deal(c, info, num, total, n - 1), n - 1)
    }
}

/// The lists of units of a convolution once every output is dealt and the
/// last unit is handed to the last worker.
pub open spec fn conv_lists<W>(c: Conv<W>, info: InfoView, num: int, total: int) -> Seq<Seq<WeightUnitView<W>>> {
    let d = deal(c, info, num, total, n_outputs(c.info));
    d.lists.update(d.worker, d.lists[d.worker].push(d.cur))
}

/// The number of outputs each worker computes, for `total` workers.
pub open spec fn conv_share<W>(c: Conv<W>, total: int) -> int {
    outputs_per_worker(c.info.o.0 * c.info.o.1 * c.info.o.2, total)
}

/// The inputs on which `distribute_weight` neither panics nor overflows.
pub open spec fn distribute_weight_ok<W>(layer: LayerWrapper<W>, total: int) -> bool {
    &&& total >= 0
    &&& layer_output_shape_ok(layer)
    &&& layer_info_ok(layer)
    &&& match layer {
        LayerWrapper::Convolution(c) => {
            let m = c.info;
            let n = n_outputs(m);
            &&& total > 0
            &&& shape_product_fits(seq![m.o.0, m.o.1, m.o.2])
            &&& n > 0 ==> reads_per_output(m) > 0
            &&& forall|t: int| 0 <= t < n ==> #[trigger] conv_map_ok(m, out_position(m, t))
            &&& forall|t: int| 0 <= t < n && t % (m.o.1 * m.o.2) == 0 ==> #[trigger] conv_kernel_ok(c, t)
        },
        LayerWrapper::Linear(c) => {
            let n = c.info.c_in as int;
            let co = c.info.c_out as int;
            &&& co > 0 ==> total > 0
            &&& co > 0 && n > 0 ==> co * n <= flat2(c.w@).len()
        },
        _ => true,
    }
}

proof fn lemma_linear_index(k: int, n: int, j: int, co: int)
    requires
        0 <= k < n,
        0 <= j < co,
    ensures
        0 <= j * n + k < co * n,
{
    assert(0 <= j * n + k < co * n) by (nonlinear_arith)
        requires
            0 <= k < n,
            0 <= j < co,
    ;
}

proof fn lemma_linear_worker(j: int, col: int, co: int, total: int)
    requires
        0 <= j < co,
        total > 0,
        col == outputs_per_worker(co, total),
        co <= i32::MAX,
    ensures
        col > 0,
        0 <= j / col < total,
        (j / col) * col <= j < (j / col + 1) * col,
{
    let q = -((-co) / total);
    vstd::arithmetic::div_mod::lemma_fundamental_div_mod(-co, total);
    vstd::arithmetic::div_mod::lemma_mod_bound(-co, total);
    assert(co <= q * total && 1 <= q <= co) by (nonlinear_arith)
        requires
            -co == total * ((-co) / total) + (-co) % total,
            0 <= (-co) % total < total,
            q == -((-co) / total),
            total > 0,
            co > 0,
    ;
    assert(col == q);
    vstd::arithmetic::div_mod::lemma_fundamental_div_mod(j, col);
    vstd::arithmetic::div_mod::lemma_mod_pos_bound(j, col);
    vstd::arithmetic::div_mod::lemma_div_pos_is_pos(j, col);
    assert((j / col) * col <= j < (j / col + 1) * col) by (nonlinear_arith)
        requires
            j == col * (j / col) + j % col,
            0 <= j % col < col,
    ;
    assert(j / col < total) by (nonlinear_arith)
        requires
            (j / col) * col <= j,
            j < co,
            co <= col * total,
            col > 0,
    ;
}

proof fn lemma_linear_share_step(j: int, col: int, w: int, v: int)
    requires
        col > 0,
        j >= 0,
        w * col <= j < (w + 1) * col,
        v >= 0,
    ensures
        v == w ==> linear_share(j + 1, col, v) == linear_share(j, col, v) + 1,
        v == w ==> linear_share(j, col, v) == j - w * col,
        v != w ==> linear_share(j + 1, col, v) == linear_share(j, col, v),
        v * col >= 0,
{
    assert(v * col >= 0) by (nonlinear_arith)
        requires
            v >= 0,
            col > 0,
    ;
    assert((v + 1) * col == v * col + col) by (nonlinear_arith);
    if v < w {
        assert((v + 1) * col <= w * col) by (nonlinear_arith)
            requires
                v + 1 <= w,
                col > 0,
        ;
    } else if v > w {
        assert((w + 1) * col <= v * col) by (nonlinear_arith)
            requires
                w + 1 <= v,
                col > 0,
        ;
    }
    assert((w + 1) * col == w * col + col) by (nonlinear_arith);
}

/// Hands out the weights of a linear layer: output channel `j` goes, as one
/// unit (`linear_unit`), to worker `j / col` where `col` is the number of
/// channels per worker.
fn distribute_linear<W: Copy>(
    c: &Linear<W>,
    info: InfoWrapper,
    total_cpu_count: i32,
    weight: &Vec<W>,
    mut weight_to_send: Vec<Vec<WeightUnit<W>>>,
) -> (r: Vec<Vec<WeightUnit<W>>>)
    requires
        distribute_weight_ok(LayerWrapper::Linear(*c), total_cpu_count as int),
        weight@ == flat2(c.w@),
        weight_to_send@.len() == total_cpu_count,
        forall|w: int| 0 <= w < total_cpu_count ==> (#[trigger] weight_to_send@[w])@.len() == 0,
    ensures
        r@.len() == total_cpu_count,
        forall|w: int|
            0 <= w < total_cpu_count ==> units_view((#[trigger] r@[w])@) == linear_units(
                *c,
                info@,
                c.info.c_out as int,
                outputs_per_worker(c.info.c_out as int, total_cpu_count as int),
                w,
            ),
{
    let ghost infov = info@;
    let co = c.info.c_out;
    let n = c.info.c_in;
    let col = num_per_cpu(co, total_cpu_count);
    let ghost total = total_cpu_count as int;
    proof {
        assert forall|w: int| 0 <= w < total implies units_view((#[trigger] weight_to_send@[w])@) == linear_units(
            *c,
            infov,
            0,
            col as int,
            w,
        ) by {
            if col > 0 {
                assert(w * col >= 0) by (nonlinear_arith)
                    requires
                        w >= 0,
                        col > 0,
                ;
            }
            assert(units_view(weight_to_send@[w]@) =~= linear_units(*c, infov, 0, col as int, w));
        }
    }
    let mut j: i32 = 0;
    while j < co
        invariant
            distribute_weight_ok(LayerWrapper::Linear(*c), total),
            total == total_cpu_count,
            weight@ == flat2(c.w@),
            co == c.info.c_out,
            n == c.info.c_in,
            col == outputs_per_worker(co as int, total),
            infov == info@,
            weight_to_send@.len() == total,
            0 <= j,
            j <= co || (co <= 0 && j == 0),
            forall|w: int|
                0 <= w < total ==> units_view((#[trigger] weight_to_send@[w])@) == linear_units(
                    *c,
                    infov,
                    j as int,
                    col as int,
                    w,
                ),
        decreases co - j,
    {
        proof {
            lemma_linear_worker(j as int, col as int, co as int, total);
        }
        let mut data: Vec<W> = Vec::new();
        let mut k: i32 = 0;
        while k < n
            invariant
                distribute_weight_ok(LayerWrapper::Linear(*c), total),
                weight@ == flat2(c.w@),
                co == c.info.c_out,
                n == c.info.c_in,
                0 <= j < co,
                0 <= k,
                k <= n || (n <= 0 && k == 0),
                data@.len() == k,
                forall|q: int| 0 <= q < k ==> #[trigger] data@[q] == weight@[j * n + q],
            decreases n - k,
        {
            proof {
                lemma_linear_index(k as int, n as int, j as int, co as int);
                assert(j * n + k < weight@.len());
            }
            let wl = weight.len();
            let ju = j as usize;
            let nu = n as usize;
            let ku = k as usize;
            assert(ju * nu == j * n);
            assert(ju * nu + ku < wl);
            data.push(weight[ju * nu + ku]);
            k = k + 1;
        }
        let which_cpu = j / col;
        let unit = WeightUnit {
            data,
            which_kernel: #[verifier::truncate] (j as u16),
            count: 0,
            start_pos_in: Vec::new(),
            info: info.copied(),
        };
        proof {
            assert(unit@ == linear_unit(*c, infov, j as int)) by {
                assert(unit@.data =~= linear_unit(*c, infov, j as int).data);
                assert(unit@.start_pos_in =~= Seq::<i32>::empty());
            }
        }
        let ghost before = weight_to_send@;
        let ghost uv = unit@;
        weight_to_send[which_cpu as usize].push(unit);
        proof {
            assert(weight_to_send@[which_cpu as int]@.len() == before[which_cpu as int]@.len() + 1);
            assert(weight_to_send@[which_cpu as int]@.last()@ == uv);
            assert forall|w: int| 0 <= w < total implies units_view((#[trigger] weight_to_send@[w])@) == linear_units(
                *c,
                infov,
                j + 1,
                col as int,
                w,
            ) by {
                lemma_linear_share_step(j as int, col as int, which_cpu as int, w);
                if w == which_cpu {
                    assert forall|i: int| 0 <= i < before[w]@.len() implies #[trigger] weight_to_send@[w]@[i] == before[w]@[i] by {
                    }
                    assert forall|i: int| 0 <= i < weight_to_send@[w]@.len() implies #[trigger] units_view(weight_to_send@[w]@)[i] == linear_units(*c, infov, j + 1, col as int, w)[i] by {
                        if i < before[w]@.len() {
                            assert(units_view(before[w]@)[i] == linear_units(*c, infov, j as int, col as int, w)[i]);
                        } else {
                            assert(i == j - w * col);
                        }
                    }
                    assert(units_view(weight_to_send@[w]@) =~= linear_units(*c, infov, j + 1, col as int, w));
                } else {
                    assert(weight_to_send@[w] == before[w]);
                    assert(linear_units(*c, infov, j + 1, col as int, w) =~= linear_units(*c, infov, j as int, col as int, w));
                }
            }
        }
        j = j + 1;
    }
    weight_to_send
}

/// `exec` holds the units of `units`, stably sorted by first input position.
pub open spec fn flushed<W>(units: Seq<WeightUnitView<W>>, exec: Seq<WeightUnit<W>>) -> bool {
    &&& units_view(exec).to_multiset() == units.to_multiset()
    &&& exists|p: Seq<int>| sorts_stably(units, units_view(exec), p)
}

proof fn lemma_deal_step<W>(c: Conv<W>, info: InfoView, num: int, total: int, n: int)
    requires
        n >= 0,
    ensures
        deal(c, info, num, total, n + 1) == deal_step(c, num, deal(c, info, num, total, n), n),
        deal(c, info, num, total, 0) == deal_start::<W>(total, info),
{
    reveal(deal);
}

/// The work split: with `num` the outputs per worker for `n` outputs and
/// `total` workers, output `t` goes to worker `t / num`, one of the
/// `total` workers, and each worker gets a run of at most `num` consecutive
/// outputs.
pub proof fn lemma_work_split(t: int, n: int, num: int, total: int)
    requires
        0 <= t < n,
        n <= i32::MAX,
        total > 0,
        num == outputs_per_worker(n, total),
    ensures
        num > 0,
        worker_at(t, num) == t / num,
        0 <= t / num < total,
        (t / num) * num <= t < (t / num + 1) * num,
{
    let q = -((-n) / total);
    vstd::arithmetic::div_mod::lemma_fundamental_div_mod(-n, total);
    vstd::arithmetic::div_mod::lemma_mod_bound(-n, total);
    assert(n <= q * total && 1 <= q <= n) by (nonlinear_arith)
        requires
            -n == total * ((-n) / total) + (-n) % total,
            0 <= (-n) % total < total,
            q == -((-n) / total),
            total > 0,
            n > 0,
    ;
    assert(num == q);
    vstd::arithmetic::div_mod::lemma_fundamental_div_mod(t, num);
    vstd::arithmetic::div_mod::lemma_mod_pos_bound(t, num);
    vstd::arithmetic::div_mod::lemma_div_pos_is_pos(t, num);
    assert(t / num < total) by (nonlinear_arith)
        requires
            t == num * (t / num) + t % num,
            0 <= t % num,
            t < n,
            n <= num * total,
            num > 0,
    ;
    assert((t / num) * num <= t < (t / num + 1) * num) by (nonlinear_arith)
        requires
            t == num * (t / num) + t % num,
            0 <= t % num < num,
    ;
}

proof fn lemma_flushed_empty<W>(exec: Seq<WeightUnit<W>>)
    requires
        exec.len() == 0,
    ensures
        flushed(Seq::<WeightUnitView<W>>::empty(), exec),
{
    let p = Seq::<int>::empty();
    assert(units_view(exec) =~= Seq::<WeightUnitView<W>>::empty());
    assert(units_view(exec).to_multiset() == Seq::<WeightUnitView<W>>::empty().to_multiset());
    assert(sorts_stably(Seq::<WeightUnitView<W>>::empty(), units_view(exec), p));
}

proof fn lemma_units_view_push<W>(before: Seq<WeightUnit<W>>, after: Seq<WeightUnit<W>>, u: WeightUnitView<W>)
    requires
        after.len() == before.len() + 1,
        forall|i: int| 0 <= i < before.len() ==> after[i] == before[i],
        after.last()@ == u,
    ensures
        units_view(after) == units_view(before).push(u),
{
    assert(units_view(after) =~= units_view(before).push(u));
}

/// Hands out the weights of a convolution (see `deal`): the outputs go to
/// the workers in runs of `num` in row-major order, and each worker's list
/// is sorted by first input position once it is complete.
fn distribute_conv<W: Copy>(
    c: &Conv<W>,
    info: InfoWrapper,
    total_cpu_count: i32,
    mut weight_to_send: Vec<Vec<WeightUnit<W>>>,
) -> (r: Vec<Vec<WeightUnit<W>>>)
    requires
        distribute_weight_ok(LayerWrapper::Convolution(*c), total_cpu_count as int),
        weight_to_send@.len() == total_cpu_count,
        forall|w: int| 0 <= w < total_cpu_count ==> (#[trigger] weight_to_send@[w])@.len() == 0,
    ensures
        r@.len() == total_cpu_count,
        forall|w: int|
            0 <= w < total_cpu_count ==> #[trigger] flushed(
                conv_lists(*c, info@, conv_share(*c, total_cpu_count as int), total_cpu_count as int)[w],
                r@[w]@,
            ),
{
    let ghost m = c.info;
    let ghost infov = info@;
    let ghost total = total_cpu_count as int;
    let o0 = c.info.o.0;
    let o1 = c.info.o.1;
    let o2 = c.info.o.2;
    proof {
        lemma_product_of_three(o0, o1, o2);
    }
    let shape = c.get_output_shape();
    let oc = output_count(&shape);
    let num = num_per_cpu(oc, total_cpu_count);
    let ghost gnum = num as int;
    assert(gnum == conv_share(*c, total));
    let n: i32 = if o0 > 0 && o1 > 0 && o2 > 0 {
        o0 * o1 * o2
    } else {
        0
    };
    let mut kernel_data: WeightUnit<W> = WeightUnit {
        data: Vec::new(),
        which_kernel: 0,
        count: 0,
        start_pos_in: Vec::new(),
        info,
    };
    let mut which_cpu: i32 = 0;
    let mut t: i32 = 0;
    proof {
        lemma_deal_step(*c, infov, gnum, total, 0);
        assert(kernel_data@ == deal::<W>(*c, infov, gnum, total, 0).cur) by {
            assert(kernel_data@.data =~= Seq::<W>::empty());
            assert(kernel_data@.start_pos_in =~= Seq::<i32>::empty());
        }
        assert forall|w: int| 0 <= w < total implies units_view((#[trigger] weight_to_send@[w])@)
            == deal::<W>(*c, infov, gnum, total, 0).lists[w] by {
            assert(units_view(weight_to_send@[w]@) =~= Seq::<WeightUnitView<W>>::empty());
        }
    }
    while t < n
        invariant
            distribute_weight_ok(LayerWrapper::Convolution(*c), total),
            m == c.info,
            total == total_cpu_count,
            gnum == num,
            gnum == conv_share(*c, total),
            o0 == m.o.0 && o1 == m.o.1 && o2 == m.o.2,
            n == n_outputs(m),
            n > 0 ==> o0 > 0 && o1 > 0 && o2 > 0 && n == o0 * o1 * o2,
            0 <= t <= n,
            weight_to_send@.len() == total,
            deal::<W>(*c, infov, gnum, total, t as int).lists.len() == total,
            kernel_data@ == deal::<W>(*c, infov, gnum, total, t as int).cur,
            kernel_data@.info == infov,
            0 <= kernel_data.count <= t,
            which_cpu == deal::<W>(*c, infov, gnum, total, t as int).worker,
            which_cpu == worker_before(t as int, gnum),
            0 <= which_cpu < total,
            forall|w: int|
                0 <= w < which_cpu ==> #[trigger] flushed(
                    deal::<W>(*c, infov, gnum, total, t as int).lists[w],
                    weight_to_send@[w]@,
                ),
            forall|w: int|
                which_cpu <= w < total ==> units_view((#[trigger] weight_to_send@[w])@) == deal::<W>(
                    *c,
                    infov,
                    gnum,
                    total,
                    t as int,
                ).lists[w],
            forall|w: int| which_cpu < w < total ==> (#[trigger] weight_to_send@[w])@.len() == 0,
        decreases n - t,
    {
        let ghost d = deal::<W>(*c, infov, gnum, total, t as int);
        proof {
            lemma_deal_step(*c, infov, gnum, total, t as int);
            lemma_work_split(t as int, n as int, gnum, total);
            lemma_worker_step(t as int, gnum);
            lemma_plane_le(o0 as int, o1 as int, o2 as int);
        }
        let plane = o1 * o2;
        let j = t / plane;
        let k = (t / o2) % o1;
        let mm = t % o2;
        let out_pos = triple(j, k, mm);
        assert(out_pos@ == out_position(m, t as int));
        let pos = c.get_input(out_pos);
        assert(pos@.len() == reads_per_output(m));
        assert(pos@[0]@ == conv_input_positions(m, out_position(m, t as int))[0]);
        let ghost pos0 = pos@[0]@;
        let ghost d1 = if worker_at(t as int, gnum) != d.worker {
            Deal {
                lists: d.lists.update(d.worker, d.lists[d.worker].push(d.cur)),
                cur: WeightUnitView { start_pos_in: pos0, count: 0, ..d.cur },
                worker: worker_at(t as int, gnum),
            }
        } else {
            d
        };
        if t / num != which_cpu {
            let ghost before = weight_to_send@;
            let u = kernel_data.copied();
            weight_to_send[which_cpu as usize].push(u);
            proof {
                lemma_units_view_push(before[which_cpu as int]@, weight_to_send@[which_cpu as int]@, d.cur);
            }
            rearrange_weight(&mut weight_to_send[which_cpu as usize]);
            kernel_data.start_pos_in = copy_vec(&pos[0]);
            which_cpu = which_cpu + 1;
            kernel_data.count = 0;
            proof {
                assert(kernel_data@ == d1.cur) by {
                    assert(kernel_data@.start_pos_in =~= pos0);
                }
                assert forall|w: int| 0 <= w < which_cpu implies #[trigger] flushed(d1.lists[w], weight_to_send@[w]@) by {
                    if w < which_cpu - 1 {
                        assert(weight_to_send@[w] == before[w]);
                    }
                }
                assert forall|w: int| which_cpu <= w < total implies units_view((#[trigger] weight_to_send@[w])@) == d1.lists[w] by {
                    assert(weight_to_send@[w] == before[w]);
                }
            }
        }
        assert(kernel_data@ == d1.cur);
        assert(which_cpu == d1.worker);
        assert(forall|w: int| 0 <= w < which_cpu ==> #[trigger] flushed(d1.lists[w], weight_to_send@[w]@));
        assert(forall|w: int| which_cpu <= w < total ==> units_view((#[trigger] weight_to_send@[w])@) == d1.lists[w]);
        if t % plane == 0 {
            assert(conv_kernel_ok(*c, t as int));
            if kernel_data.data.len() > 0 {
                let ghost before = weight_to_send@;
                let u = kernel_data.copied();
                weight_to_send[which_cpu as usize].push(u);
                proof {
                    lemma_units_view_push(before[which_cpu as int]@, weight_to_send@[which_cpu as int]@, d1.cur);
                    assert forall|w: int| 0 <= w < which_cpu implies #[trigger] flushed(
                        d1.lists.update(d1.worker, d1.lists[d1.worker].push(d1.cur))[w],
                        weight_to_send@[w]@,
                    ) by {
                        assert(weight_to_send@[w] == before[w]);
                    }
                    assert forall|w: int| which_cpu <= w < total implies units_view((#[trigger] weight_to_send@[w])@)
                        == d1.lists.update(d1.worker, d1.lists[d1.worker].push(d1.cur))[w] by {
                        if w != which_cpu {
                            assert(weight_to_send@[w] == before[w]);
                        }
                    }
                }
            }
            kernel_data.start_pos_in = copy_vec(&pos[0]);
            proof {
                assert forall|q: int| 0 <= q < pos@.len() implies (#[trigger] pos@[q])@.len() >= 1 by {
                    assert(pos@[q]@ == conv_input_positions(m, out_position(m, t as int))[q]);
                }
            }
            kernel_data.data = c.get_weights_from_input(pos, j);
            kernel_data.which_kernel = #[verifier::truncate] (j as u16);
            kernel_data.count = 0;
            proof {
                assert(kernel_data@.data =~= conv_kernel_data(*c, t as int));
                assert(kernel_data@.start_pos_in =~= pos0);
            }
        }
        kernel_data.count = kernel_data.count + 1;
        t = t + 1;
        proof {
            let d2 = deal::<W>(*c, infov, gnum, total, t as int);
            assert(kernel_data@ == d2.cur);
            assert(which_cpu == d2.worker);
        }
    }
    proof {
        if n <= 0 {
            assert(t == 0);
        }
    }
    let ghost d = deal::<W>(*c, infov, gnum, total, t as int);
    let ghost before = weight_to_send@;
    weight_to_send[which_cpu as usize].push(kernel_data);
    proof {
        lemma_units_view_push(before[which_cpu as int]@, weight_to_send@[which_cpu as int]@, d.cur);
    }
    rearrange_weight(&mut weight_to_send[which_cpu as usize]);
    proof {
        let fl = conv_lists(*c, infov, gnum, total);
        assert forall|w: int| 0 <= w < total implies #[trigger] flushed(fl[w], weight_to_send@[w]@) by {
            if w < which_cpu {
                assert(weight_to_send@[w] == before[w]);
            } else if w > which_cpu {
                assert(weight_to_send@[w] == before[w]);
                assert(fl[w] =~= Seq::<WeightUnitView<W>>::empty());
                lemma_flushed_empty(weight_to_send@[w]@);
            }
        }
    }
    weight_to_send
}

/// Hands out the weights of a layer to the workers. A convolution deals
/// its outputs to the workers in runs (`conv_lists`, each worker's list
/// stably sorted by first input position); a linear layer gives each worker
/// a run of output channels (`linear_units`); a ReLU6 has no weights, and
/// gives no lists; a batch normalisation keeps all its weights in one unit
/// for the coordinator.
pub fn distribute_weight<W: Copy>(layer: &LayerWrapper<W>, total_cpu_count: i32) -> (r: Vec<Vec<WeightUnit<W>>>)
    requires
        distribute_weight_ok(*layer, total_cpu_count as int),
    ensures
        match *layer {
            LayerWrapper::Convolution(c) => {
                &&& r@.len() == total_cpu_count
                &&& forall|w: int|
                    0 <= w < total_cpu_count ==> #[trigger] flushed(
                        conv_lists(c, layer_info(*layer), conv_share(c, total_cpu_count as int), total_cpu_count as int)[w],
                        r@[w]@,
                    )
            },
            LayerWrapper::Linear(c) => {
                &&& r@.len() == total_cpu_count
                &&& forall|w: int|
                    0 <= w < total_cpu_count ==> units_view((#[trigger] r@[w])@) == linear_units(
                        c,
                        layer_info(*layer),
                        c.info.c_out as int,
                        outputs_per_worker(c.info.c_out as int, total_cpu_count as int),
                        w,
                    )
            },
            LayerWrapper::ReLU6(_) => r@.len() == 0,
            LayerWrapper::BatchNorm2d(_) => {
                &&& r@.len() == 1
                &&& r@[0]@.len() == 1
                &&& r@[0]@[0]@ == WeightUnitView {
                    data: layer_weights(*layer),
                    which_kernel: 0,
                    count: 0,
                    start_pos_in: seq![],
                    info: layer_info(*layer),
                }
            },
        },
{
    let _output_shape = layer.get_output_shape();
    let total = total_cpu_count as usize;
    let mut weight_to_send: Vec<Vec<WeightUnit<W>>> = Vec::new();
    while weight_to_send.len() < total
        invariant
            weight_to_send@.len() <= total,
            forall|w: int| 0 <= w < weight_to_send@.len() ==> (#[trigger] weight_to_send@[w])@.len() == 0,
        decreases total - weight_to_send@.len(),
    {
        weight_to_send.push(Vec::new());
    }
    let info = layer.get_info();
    match layer {
        LayerWrapper::Convolution(c) => distribute_conv(c, info, total_cpu_count, weight_to_send),
        LayerWrapper::Linear(c) => {
            let weight = layer.get_weights();
            distribute_linear(c, info, total_cpu_count, &weight, weight_to_send)
        },
        LayerWrapper::ReLU6(_) => Vec::new(),
        LayerWrapper::BatchNorm2d(_) => {
            let unit = WeightUnit {
                data: layer.get_weights(),
                which_kernel: 0,
                count: 0,
                start_pos_in: Vec::new(),
                info,
            };
            assert(unit@.start_pos_in =~= Seq::<i32>::empty());
            let mut single: Vec<WeightUnit<W>> = Vec::new();
            single.push(unit);
            let mut r: Vec<Vec<WeightUnit<W>>> = Vec::new();
            r.push(single);
            r
        },
    }
}

/// The outputs counted in a list of units.
pub open spec fn units_count<W>(s: Seq<WeightUnitView<W>>) -> int
    decreases s.len(),
{
    if s.len() == 0 {
        0
    } else {
        units_count(s.drop_last()) + s.last().count
    }
}

/// The outputs counted in all the lists.
pub open spec fn lists_count<W>(ls: Seq<Seq<WeightUnitView<W>>>) -> int
    decreases ls.len(),
{
    if ls.len() == 0 {
        0
    } else {
        lists_count(ls.drop_last()) + units_count(ls.last())
    }
}

proof fn lemma_lists_count_push<W>(ls: Seq<Seq<WeightUnitView<W>>>, i: int, u: WeightUnitView<W>)
    requires
        0 <= i < ls.len(),
    ensures
        lists_count(ls.update(i, ls[i].push(u))) == lists_count(ls) + u.count,
    decreases ls.len(),
{
    let ls2 = ls.update(i, ls[i].push(u));
    assert(ls[i].push(u).drop_last() =~= ls[i]);
    if i == ls.len() - 1 {
        assert(ls2.drop_last() =~= ls.drop_last());
    } else {
        lemma_lists_count_push(ls.drop_last(), i, u);
        assert(ls2.drop_last() =~= ls.drop_last().update(i, ls[i].push(u)));
    }
}

proof fn lemma_deal_counts<W>(c: Conv<W>, info: InfoView, total: int, t: int)
    requires
        distribute_weight_ok(LayerWrapper::Convolution(c), total),
        0 <= t <= n_outputs(c.info),
    ensures
        ({
            let d = deal(c, info, conv_share(c, total), total, t);
            &&& lists_count(d.lists) + d.cur.count == t
            &&& d.lists.len() == total
            &&& d.worker == worker_before(t, conv_share(c, total))
            &&& 0 <= d.worker < total
            &&& 0 <= d.cur.count <= t
            &&& t >= 1 ==> d.cur.data.len() > 0
        }),
    decreases t,
{
    let num = conv_share(c, total);
    let m = c.info;
    lemma_deal_step(c, info, num, total, 0);
    if t == 0 {
        let d = deal(c, info, num, total, 0);
        assert(forall|w: int| 0 <= w < total ==> #[trigger] d.lists[w] == Seq::<WeightUnitView<W>>::empty());
        lemma_lists_count_empty(d.lists);
    } else {
        lemma_deal_counts(c, info, total, t - 1);
        lemma_deal_step(c, info, num, total, t - 1);
        lemma_product_of_three(m.o.0, m.o.1, m.o.2);
        lemma_work_split(t - 1, n_outputs(m), num, total);
        lemma_worker_step(t - 1, num);
        lemma_plane_le(m.o.0 as int, m.o.1 as int, m.o.2 as int);
        let d = deal(c, info, num, total, t - 1);
        let pos0 = conv_input_positions(m, out_position(m, t - 1))[0];
        let w = worker_at(t - 1, num);
        let d1 = if w != d.worker {
            Deal {
                lists: d.lists.update(d.worker, d.lists[d.worker].push(d.cur)),
                cur: WeightUnitView { start_pos_in: pos0, count: 0, ..d.cur },
                worker: w,
            }
        } else {
            d
        };
        if w != d.worker {
            lemma_lists_count_push(d.lists, d.worker, d.cur);
        }
        if (t - 1) % (m.o.1 * m.o.2) == 0 && d1.cur.data.len() > 0 {
            lemma_lists_count_push(d1.lists, d1.worker, d1.cur);
        }
        if (t - 1) % (m.o.1 * m.o.2) == 0 && t - 1 > 0 {
            assert(d1.cur.data.len() > 0);
        }
        if (t - 1) % (m.o.1 * m.o.2) == 0 && t - 1 == 0 {
            assert(d.cur.count == 0);
        }
        assert(conv_kernel_data(c, t - 1).len() == reads_per_output(m));
    }
}

proof fn lemma_lists_count_empty<W>(ls: Seq<Seq<WeightUnitView<W>>>)
    requires
        forall|w: int| 0 <= w < ls.len() ==> #[trigger] ls[w] == Seq::<WeightUnitView<W>>::empty(),
    ensures
        lists_count(ls) == 0,
    decreases ls.len(),
{
    if ls.len() > 0 {
        assert(ls.last() == ls[ls.len() - 1]);
        lemma_lists_count_empty(ls.drop_last());
    }
}

/// Every output of a convolution is computed exactly once: the counts of
/// all the units that `distribute_weight` deals out add up to the number of
/// outputs.
pub proof fn lemma_conv_counts_cover<W>(c: Conv<W>, info: InfoView, total: int)
    requires
        distribute_weight_ok(LayerWrapper::Convolution(c), total),
    ensures
        lists_count(conv_lists(c, info, conv_share(c, total), total)) == n_outputs(c.info),
{
    let n = n_outputs(c.info);
    lemma_deal_counts(c, info, total, n);
    let d = deal(c, info, conv_share(c, total), total, n);
    lemma_lists_count_push(d.lists, d.worker, d.cur);
}

proof fn lemma_increasing_floor(p: Seq<int>, i: int)
    requires
        0 <= i < p.len(),
        forall|a: int| 0 <= a < p.len() ==> 0 <= #[trigger] p[a],
        forall|a: int, b: int| 0 <= a < b < p.len() ==> #[trigger] p[a] < #[trigger] p[b],
    ensures
        p[i] >= i,
    decreases i,
{
    if i > 0 {
        lemma_increasing_floor(p, i - 1);
        assert(p[i - 1] < p[i]);
    }
}

proof fn lemma_increasing_ceiling(p: Seq<int>, i: int)
    requires
        0 <= i < p.len(),
        forall|a: int| 0 <= a < p.len() ==> #[trigger] p[a] < p.len(),
        forall|a: int, b: int| 0 <= a < b < p.len() ==> #[trigger] p[a] < #[trigger] p[b],
    ensures
        p[i] <= i,
    decreases p.len() - i,
{
    if i < p.len() - 1 {
        lemma_increasing_ceiling(p, i + 1);
        assert(p[i] < p[i + 1]);
    }
}

/// Sorting units that are already in order of first input position leaves
/// them as they are, so sorting twice gives what sorting once gives.
pub proof fn lemma_sorted_is_fixed<W>(before: Seq<WeightUnitView<W>>, after: Seq<WeightUnitView<W>>, p: Seq<int>)
    requires
        sorts_stably(before, after, p),
        forall|i: int, j: int|
            0 <= i < j < before.len() ==> lex_order(#[trigger] before[i].start_pos_in, #[trigger] before[j].start_pos_in)
                <= 0,
    ensures
        after == before,
{
    assert forall|i: int, j: int| 0 <= i < j < p.len() implies #[trigger] p[i] < #[trigger] p[j] by {
        assert(lex_order(after[i].start_pos_in, after[j].start_pos_in) <= 0);
        if lex_order(after[i].start_pos_in, after[j].start_pos_in) != 0 {
            assert(p[i] != p[j]);
            if p[j] < p[i] {
                assert(lex_order(before[p[j]].start_pos_in, before[p[i]].start_pos_in) <= 0);
                lemma_lex_antisym(after[i].start_pos_in, after[j].start_pos_in);
            }
        }
    }
    assert forall|a: int| 0 <= a < p.len() implies #[trigger] p[a] == a by {
        lemma_increasing_floor(p, a);
        lemma_increasing_ceiling(p, a);
    }
    assert forall|a: int| 0 <= a < after.len() implies after[a] == before[a] by {
        assert(p[a] == a);
    }
    assert(after =~= before);
}

proof fn lemma_units_count_fold<W>(s: Seq<WeightUnitView<W>>)
    ensures
        units_count(s) == s.fold_left(0int, |acc: int, u: WeightUnitView<W>| acc + u.count),
    decreases s.len(),
{
    if s.len() > 0 {
        lemma_units_count_fold(s.drop_last());
    }
}

proof fn lemma_permuted_count<W>(a: Seq<WeightUnitView<W>>, b: Seq<WeightUnitView<W>>)
    requires
        a.to_multiset() == b.to_multiset(),
    ensures
        units_count(a) == units_count(b),
{
    let f = |acc: int, u: WeightUnitView<W>| acc + u.count;
    lemma_units_count_fold(a);
    lemma_units_count_fold(b);
    assert(vstd::seq_lib::commutative_foldl(f));
    vstd::seq_lib::lemma_fold_left_permutation(a, b, f, 0int);
}

proof fn lemma_lists_count_pointwise<W>(a: Seq<Seq<WeightUnitView<W>>>, b: Seq<Seq<WeightUnitView<W>>>)
    requires
        a.len() == b.len(),
        forall|w: int| 0 <= w < a.len() ==> units_count(#[trigger] a[w]) == units_count(b[w]),
    ensures
        lists_count(a) == lists_count(b),
    decreases a.len(),
{
    if a.len() > 0 {
        assert(units_count(a[a.len() - 1]) == units_count(b[b.len() - 1]));
        lemma_lists_count_pointwise(a.drop_last(), b.drop_last());
    }
}

/// Every output of a convolution is computed exactly once, however the
/// workers' lists are sorted: the counts of all the units in lists that
/// `distribute_weight` can return add up to the number of outputs.
pub proof fn lemma_dealt_counts<W>(c: Conv<W>, info: InfoView, total: int, r: Seq<Vec<WeightUnit<W>>>)
    requires
        distribute_weight_ok(LayerWrapper::Convolution(c), total),
        r.len() == total,
        forall|w: int|
            0 <= w < total ==> #[trigger] flushed(conv_lists(c, info, conv_share(c, total), total)[w], r[w]@),
    ensures
        lists_count(Seq::new(r.len(), |w: int| units_view(r[w]@))) == n_outputs(c.info),
{
    let fl = conv_lists(c, info, conv_share(c, total), total);
    let ex = Seq::new(r.len(), |w: int| units_view(r[w]@));
    lemma_deal_counts(c, info, total, n_outputs(c.info));
    lemma_conv_counts_cover(c, info, total);
    assert forall|w: int| 0 <= w < ex.len() implies units_count(#[trigger] ex[w]) == units_count(fl[w]) by {
        assert(flushed(fl[w], r[w]@));
        lemma_permuted_count(ex[w], fl[w]);
    }
    lemma_lists_count_pointwise(ex, fl);
}


/// Unit `u` holds the weights of one kernel of the convolution, read over
/// the window of output `s`, the first output of that kernel.
pub open spec fn kernel_unit<W>(c: Conv<W>, u: WeightUnitView<W>, s: int) -> bool {
    let plane = c.info.o.1 * c.info.o.2;
    &&& 0 <= s < n_outputs(c.info)
    &&& s % plane == 0
    &&& u.which_kernel == (s / plane) as u16
    &&& u.data == conv_kernel_data(c, s)
}

/// The first output of the kernel that unit `u` holds, when it holds one.
pub open spec fn kernel_start<W>(c: Conv<W>, u: WeightUnitView<W>) -> int {
    choose|s: int| kernel_unit(c, u, s)
}

proof fn lemma_deal_kernels<W>(c: Conv<W>, info: InfoView, total: int, t: int)
    requires
        distribute_weight_ok(LayerWrapper::Convolution(c), total),
        0 <= t <= n_outputs(c.info),
    ensures
        ({
            let d = deal(c, info, conv_share(c, total), total, t);
            &&& forall|w: int, i: int|
                0 <= w < d.lists.len() && 0 <= i < d.lists[w].len() ==> kernel_unit(
                    c,
                    #[trigger] d.lists[w][i],
                    kernel_start(c, d.lists[w][i]),
                )
            &&& t >= 1 ==> kernel_unit(c, d.cur, kernel_start(c, d.cur))
            &&& t == 0 ==> d.cur.data.len() == 0
        }),
    decreases t,
{
    let num = conv_share(c, total);
    let m = c.info;
    lemma_deal_step(c, info, num, total, 0);
    if t == 0 {
        let d = deal(c, info, conv_share(c, total), total, t);
        assert(forall|w: int| 0 <= w < total ==> #[trigger] d.lists[w] == Seq::<WeightUnitView<W>>::empty());
    } else {
        lemma_deal_kernels(c, info, total, t - 1);
        lemma_deal_counts(c, info, total, t - 1);
        lemma_deal_step(c, info, num, total, t - 1);
        lemma_product_of_three(m.o.0, m.o.1, m.o.2);
        lemma_work_split(t - 1, n_outputs(m), num, total);
        lemma_plane_le(m.o.0 as int, m.o.1 as int, m.o.2 as int);
        let d = deal(c, info, num, total, t - 1);
        let pos0 = conv_input_positions(m, out_position(m, t - 1))[0];
        let w = worker_at(t - 1, num);
        let d1 = if w != d.worker {
            Deal {
                lists: d.lists.update(d.worker, d.lists[d.worker].push(d.cur)),
                cur: WeightUnitView { start_pos_in: pos0, count: 0, ..d.cur },
                worker: w,
            }
        } else {
            d
        };
        let plane = m.o.1 * m.o.2;
        if t - 1 == 0 {
            assert(w == 0);
        }
        let d2 = if (t - 1) % plane == 0 {
            Deal {
                lists: if d1.cur.data.len() > 0 {
                    d1.lists.update(d1.worker, d1.lists[d1.worker].push(d1.cur))
                } else {
                    d1.lists
                },
                cur: WeightUnitView {
                    data: conv_kernel_data(c, t - 1),
                    which_kernel: ((t - 1) / plane) as u16,
                    count: 0,
                    start_pos_in: pos0,
                    info: d1.cur.info,
                },
                worker: d1.worker,
            }
        } else {
            d1
        };
        let d3 = deal(c, info, conv_share(c, total), total, t);
        assert(d3 == Deal { cur: WeightUnitView { count: (d2.cur.count + 1) as i32, ..d2.cur }, ..d2 });
        if t - 1 >= 1 {
            assert(kernel_unit(c, d1.cur, kernel_start(c, d.cur)));
        }
        if (t - 1) % plane == 0 {
            assert(kernel_unit(c, d3.cur, t - 1));
        } else {
            assert(kernel_unit(c, d3.cur, kernel_start(c, d.cur)));
        }
        assert forall|v: int, i: int| 0 <= v < d3.lists.len() && 0 <= i < d3.lists[v].len() implies kernel_unit(
            c,
            #[trigger] d3.lists[v][i],
            kernel_start(c, d3.lists[v][i]),
        ) by {
            if (t - 1) % plane == 0 && d1.cur.data.len() > 0 && v == d1.worker && i == d1.lists[v].len() {
                assert(t - 1 >= 1);
                assert(d3.lists[v][i] == d1.cur);
                assert(kernel_unit(c, d3.lists[v][i], kernel_start(c, d.cur)));
            } else {
                assert(d3.lists[v][i] == d1.lists[v][i]);
                if w != d.worker && v == d.worker && i == d.lists[v].len() {
                    assert(t - 1 >= 1);
                    assert(d1.lists[v][i] == d.cur);
                    assert(kernel_unit(c, d3.lists[v][i], kernel_start(c, d.cur)));
                } else {
                    assert(d1.lists[v][i] == d.lists[v][i]);
                    assert(kernel_unit(c, d3.lists[v][i], kernel_start(c, d.lists[v][i])));
                }
            }
        }
    }
}

/// Unit `u` carries kernel `j` of the convolution: its kernel number is `j`,
/// and its weights are those that every output of kernel `j` meets over its
/// window, in the order of its reads.
pub open spec fn holds_kernel<W>(c: Conv<W>, u: WeightUnitView<W>, j: int) -> bool {
    &&& 0 <= j < c.info.o.0
    &&& u.which_kernel == j as u16
    &&& forall|t: int|
        0 <= t < n_outputs(c.info) && t / (c.info.o.1 * c.info.o.2) == j ==> u.data == #[trigger] conv_kernel_data(c, t)
}

/// Every unit that `distribute_weight` hands out for a convolution holds
/// the weights of one kernel: for a kernel `j`, the unit's kernel number is
/// `j` and its weights are those that every output of kernel `j` meets over
/// its window, in the order of its reads (`conv_kernel_data`).
pub proof fn lemma_units_hold_kernel_weights<W>(c: Conv<W>, info: InfoView, total: int, w: int, i: int)
    requires
        distribute_weight_ok(LayerWrapper::Convolution(c), total),
        n_outputs(c.info) > 0,
        0 <= w < total,
        0 <= i < conv_lists(c, info, conv_share(c, total), total)[w].len(),
    ensures
        exists|j: int| #[trigger] holds_kernel(c, conv_lists(c, info, conv_share(c, total), total)[w][i], j),
{
    let m = c.info;
    let n = n_outputs(m);
    let num = conv_share(c, total);
    lemma_deal_kernels(c, info, total, n);
    lemma_deal_counts(c, info, total, n);
    let d = deal(c, info, num, total, n);
    let ls = conv_lists(c, info, num, total);
    let u = ls[w][i];
    if w == d.worker && i == d.lists[w].len() {
        assert(u == d.cur);
    } else {
        assert(u == d.lists[w][i]);
    }
    let s = kernel_start(c, u);
    assert(kernel_unit(c, u, s));
    lemma_product_of_three(m.o.0, m.o.1, m.o.2);
    lemma_plane_le(m.o.0 as int, m.o.1 as int, m.o.2 as int);
    let plane = m.o.1 * m.o.2;
    let j = s / plane;
    assert(0 <= j < m.o.0) by (nonlinear_arith)
        requires
            0 <= s < m.o.0 * m.o.1 * m.o.2,
            plane == m.o.1 * m.o.2,
            plane > 0,
            j == s / plane,
    ;
    assert forall|t: int| 0 <= t < n && t / plane == j implies u.data == #[trigger] conv_kernel_data(c, t) by {
        lemma_window_weights_same_channel(c, out_position(m, s), out_position(m, t));
    }
    assert(holds_kernel(c, u, j));
}


/// A worker that reads every cell of the read map receives the value of
/// every cell, in the order of the cells: its `i`-th input is what cell `i`
/// hands out (`zero` for padding, else the next input value).
pub proof fn lemma_reading_every_cell<T>(mapping: Seq<Vec<Vec<u16>>>, input: Seq<Vec<Vec<T>>>, zero: T, k: int, n: int)
    requires
        0 <= n,
        forall|i: int| 0 <= i < n ==> routes_to(#[trigger] map_code(mapping, i), k),
    ensures
        worker_inputs(mapping, input, zero, k, n).len() == n,
        forall|i: int| 0 <= i < n ==> #[trigger] worker_inputs(mapping, input, zero, k, n)[i] == cell_value(mapping, input, zero, i),
    decreases n,
{
    reveal(worker_inputs);
    if n > 0 {
        lemma_reading_every_cell(mapping, input, zero, k, n - 1);
        assert(routes_to(map_code(mapping, n - 1), k));
        let prev = worker_inputs(mapping, input, zero, k, n - 1);
        assert(worker_inputs(mapping, input, zero, k, n) == prev.push(cell_value(mapping, input, zero, n - 1)));
    }
}

} // verus!
