use vstd::prelude::*;
use crate::flat::copy_vec;
use crate::layers::{lemma_flat_index, window_hi, window_lo};
use crate::num::{div_i32, fits_i16, trunc_div};

verus! {

/// Shape and grouping of a convolution (see `layers::ConvMapping`), with
/// 16-bit fields.
#[derive(Clone, Copy)]
pub struct ConvMapping {
    pub o_pg: i16,
    pub i_pg: i16,
    pub s: (i16, i16),
    pub k: (i16, i16),
    pub i: (i16, i16, i16),
    pub o: (i16, i16, i16),
}

/// Shape of a fully connected layer, with 16-bit fields.
#[derive(Clone, Copy)]
pub struct LinearMapping {
    pub b_in: i16,
    pub c_in: i16,
    pub b_out: i16,
    pub c_out: i16,
}

/// A ReLU6 activation, which keeps the shape of its input.
pub struct Relu6 {
    pub input_shape: Vec<i16>,
}

/// Number of kernel offsets along one axis: from `window_lo(k)` to
/// `window_hi(k)`, the last one included or not.
pub open spec fn window_count(k: int, inclusive: bool) -> int {
    let lo = window_lo(k);
    let hi = window_hi(k);
    if inclusive {
        if hi >= lo {
            hi - lo + 1
        } else {
            0
        }
    } else if hi > lo {
        hi - lo
    } else {
        0
    }
}

/// The input positions that the output position `o` of the convolution
/// reads: every input channel of its group, every row offset of the kernel
/// window, and every column offset (the last one only when
/// `cols_inclusive`), ordered by channel, then row, then column.
pub open spec fn positions16(m: ConvMapping, o: Seq<i16>, cols_inclusive: bool) -> Seq<Seq<i16>> {
    let g = trunc_div(o[0] as int, m.o_pg as int) * m.i_pg;
    let ho = o[1] * m.s.0;
    let wo = o[2] * m.s.1;
    let n0 = window_count(m.k.0 as int, true);
    let n1 = window_count(m.k.1 as int, cols_inclusive);
    let groups = if m.i_pg > 0 { m.i_pg as int } else { 0 };
    Seq::new(
        (groups * n0 * n1) as nat,
        |t: int|
            seq![
                (g + t / (n0 * n1)) as i16,
                (ho + window_lo(m.k.0 as int) + (t / n1) % n0) as i16,
                (wo + window_lo(m.k.1 as int) + t % n1) as i16,
            ],
    )
}

/// The inputs on which computing `positions16` stays inside `i16` and
/// divides by no zero.
pub open spec fn positions16_ok(m: ConvMapping, o: Seq<i16>, cols_inclusive: bool) -> bool {
    let g = trunc_div(o[0] as int, m.o_pg as int) * m.i_pg;
    let ho = o[1] * m.s.0;
    let wo = o[2] * m.s.1;
    let last1 = if cols_inclusive { window_hi(m.k.1 as int) } else { window_hi(m.k.1 as int) - 1 };
    &&& o.len() == 3
    &&& fits_i16(ho)
    &&& fits_i16(wo)
    &&& m.o_pg != 0
    &&& !(o[0] == i16::MIN && m.o_pg == -1)
    &&& fits_i16(g)
    &&& m.k.0 != i16::MIN
    &&& m.k.1 != i16::MIN
    &&& m.i_pg > 0 && window_count(m.k.0 as int, true) > 0 && window_count(m.k.1 as int, cols_inclusive) > 0 ==> {
        &&& fits_i16(g + m.i_pg - 1)
        &&& fits_i16(ho + window_lo(m.k.0 as int))
        &&& fits_i16(ho + window_hi(m.k.0 as int))
        &&& fits_i16(wo + window_lo(m.k.1 as int))
        &&& fits_i16(wo + last1)
    }
}

fn row16(a: i32, b: i32, c: i32) -> (v: Vec<i16>)
    requires
        fits_i16(a as int),
        fits_i16(b as int),
        fits_i16(c as int),
    ensures
        v@ == seq![a as i16, b as i16, c as i16],
{
    let mut v = Vec::new();
    v.push(a as i16);
    v.push(b as i16);
    v.push(c as i16);
    v
}

fn conv_positions16(m: &ConvMapping, o: &Vec<i16>, cols_inclusive: bool) -> (result: Vec<Vec<i16>>)
    requires
        positions16_ok(*m, o@, cols_inclusive),
    ensures
        result@.len() == positions16(*m, o@, cols_inclusive).len(),
        forall|t: int| 0 <= t < result@.len() ==> (#[trigger] result@[t])@ == positions16(*m, o@, cols_inclusive)[t],
{
    let ghost spec_rows = positions16(*m, o@, cols_inclusive);
    let h_offset: i32 = o[1] as i32 * m.s.0 as i32;
    let w_offset: i32 = o[2] as i32 * m.s.1 as i32;
    let which_group: i32 = div_i32(o[0] as i32, m.o_pg as i32) * m.i_pg as i32;
    let ghost n0 = window_count(m.k.0 as int, true);
    let ghost n1 = window_count(m.k.1 as int, cols_inclusive);
    let lo0 = div_i32(-(m.k.0 as i32), 2);
    let hi0 = div_i32(m.k.0 as i32, 2);
    let lo1 = div_i32(-(m.k.1 as i32), 2);
    let hi1 = div_i32(m.k.1 as i32, 2);
    let end1: i32 = if cols_inclusive {
        hi1 + 1
    } else {
        hi1
    };
    let mut result: Vec<Vec<i16>> = Vec::new();
    let mut q: i32 = 0;
    let i_pg = m.i_pg as i32;
    while q < i_pg
        invariant
            positions16_ok(*m, o@, cols_inclusive),
            spec_rows == positions16(*m, o@, cols_inclusive),
            n0 == window_count(m.k.0 as int, true),
            n1 == window_count(m.k.1 as int, cols_inclusive),
            h_offset == o@[1] * m.s.0,
            w_offset == o@[2] * m.s.1,
            which_group == trunc_div(o@[0] as int, m.o_pg as int) * m.i_pg,
            lo0 == window_lo(m.k.0 as int),
            hi0 == window_hi(m.k.0 as int),
            lo1 == window_lo(m.k.1 as int),
            hi1 == window_hi(m.k.1 as int),
            end1 == (if cols_inclusive { hi1 + 1 } else { hi1 as int }),
            i_pg == m.i_pg,
            0 <= q,
            q <= i_pg || i_pg <= 0,
            i_pg > 0 ==> result@.len() == q * n0 * n1,
            i_pg <= 0 ==> q == 0 && result@.len() == 0,
            forall|t: int| 0 <= t < result@.len() ==> (#[trigger] result@[t])@ == spec_rows[t],
        decreases i_pg - q,
    {
        let mut h = lo0;
        while h <= hi0
            invariant
                positions16_ok(*m, o@, cols_inclusive),
                spec_rows == positions16(*m, o@, cols_inclusive),
                n0 == window_count(m.k.0 as int, true),
                n1 == window_count(m.k.1 as int, cols_inclusive),
                h_offset == o@[1] * m.s.0,
                w_offset == o@[2] * m.s.1,
                which_group == trunc_div(o@[0] as int, m.o_pg as int) * m.i_pg,
                lo0 == window_lo(m.k.0 as int),
                hi0 == window_hi(m.k.0 as int),
                lo1 == window_lo(m.k.1 as int),
                hi1 == window_hi(m.k.1 as int),
                end1 == (if cols_inclusive { hi1 + 1 } else { hi1 as int }),
                i_pg == m.i_pg,
                0 <= q < i_pg,
                h == lo0 || lo0 < h <= hi0 + 1,
                result@.len() == q * n0 * n1 + (h - lo0) * n1,
                forall|t: int| 0 <= t < result@.len() ==> (#[trigger] result@[t])@ == spec_rows[t],
            decreases hi0 + 1 - h,
        {
            let mut w = lo1;
            while w < end1
                invariant
                    positions16_ok(*m, o@, cols_inclusive),
                    spec_rows == positions16(*m, o@, cols_inclusive),
                    n0 == window_count(m.k.0 as int, true),
                    n1 == window_count(m.k.1 as int, cols_inclusive),
                    h_offset == o@[1] * m.s.0,
                    w_offset == o@[2] * m.s.1,
                    which_group == trunc_div(o@[0] as int, m.o_pg as int) * m.i_pg,
                    lo0 == window_lo(m.k.0 as int),
                    hi0 == window_hi(m.k.0 as int),
                    lo1 == window_lo(m.k.1 as int),
                    hi1 == window_hi(m.k.1 as int),
                    end1 == (if cols_inclusive { hi1 + 1 } else { hi1 as int }),
                    i_pg == m.i_pg,
                    0 <= q < i_pg,
                    lo0 <= h <= hi0,
                    w == lo1 || lo1 < w <= end1,
                    result@.len() == q * n0 * n1 + (h - lo0) * n1 + (w - lo1),
                    forall|t: int| 0 <= t < result@.len() ==> (#[trigger] result@[t])@ == spec_rows[t],
                decreases end1 - w,
            {
                let row = row16(which_group + q, h_offset + h, w_offset + w);
                proof {
                    let t = result@.len() as int;
                    let a = h - lo0;
                    let b = w - lo1;
                    assert(n1 == end1 - lo1);
                    assert(t == (q * n0 + a) * n1 + b) by (nonlinear_arith)
                        requires
                            t == q * n0 * n1 + a * n1 + b,
                    ;
                    lemma_flat_index(q as int, a as int, b as int, n0, n1);
                    assert(t < i_pg * n0 * n1) by (nonlinear_arith)
                        requires
                            t == (q * n0 + a) * n1 + b,
                            0 <= a < n0,
                            0 <= b < n1,
                            q + 1 <= i_pg,
                    ;
                }
                result.push(row);
                w = w + 1;
            }
            proof {
                assert(n1 == end1 - lo1 || n1 == 0);
                assert(q * n0 * n1 + (h - lo0) * n1 + n1 == q * n0 * n1 + (h + 1 - lo0) * n1)
                    by (nonlinear_arith);
            }
            h = h + 1;
        }
        proof {
            assert(q * n0 * n1 + n0 * n1 == (q + 1) * n0 * n1) by (nonlinear_arith);
        }
        q = q + 1;
    }
    proof {
        assert(result@.len() == spec_rows.len());
    }
    result
}

/// The input positions that the output position `o_position` of a
/// convolution reads (see `positions16`): the whole kernel window, column
/// offsets from `-k.1 / 2` up to but not including `k.1 / 2`.
pub fn map_to_input(o_position: (i16, i16, i16), info: ConvMapping) -> (result: Vec<Vec<i16>>)
    requires
        positions16_ok(info, seq![o_position.0, o_position.1, o_position.2], false),
    ensures
        result@.len() == positions16(info, seq![o_position.0, o_position.1, o_position.2], false).len(),
        forall|t: int|
            0 <= t < result@.len() ==> (#[trigger] result@[t])@ == positions16(
                info,
                seq![o_position.0, o_position.1, o_position.2],
                false,
            )[t],
{
    let mut o: Vec<i16> = Vec::new();
    o.push(o_position.0);
    o.push(o_position.1);
    o.push(o_position.2);
    assert(o@ =~= seq![o_position.0, o_position.1, o_position.2]);
    conv_positions16(&info, &o, false)
}

/// The input positions that the output position `o` of a linear layer
/// reads: the whole input row `o[0]`, one position per input channel.
pub open spec fn linear_positions16(m: LinearMapping, o: Seq<i16>) -> Seq<Seq<i16>> {
    let n = if m.c_in > 0 { m.c_in as int } else { 0 };
    Seq::new(n as nat, |t: int| seq![o[0], t as i16])
}

/// Maps an output position of a layer to the input positions it reads.
pub trait IOMapping {
    /// The inputs on which `map_to_input` neither panics nor overflows.
    spec fn map_to_input_ok(&self, o_position: Seq<i16>) -> bool;

    /// The input positions read for the output position `o_position`.
    spec fn input_positions(&self, o_position: Seq<i16>) -> Seq<Seq<i16>>;

    fn map_to_input(&self, o_position: Vec<i16>) -> (result: Vec<Vec<i16>>)
        requires
            self.map_to_input_ok(o_position@),
        ensures
            result@.len() == self.input_positions(o_position@).len(),
            forall|t: int|
                0 <= t < result@.len() ==> (#[trigger] result@[t])@ == self.input_positions(o_position@)[t],
    ;
}

impl IOMapping for ConvMapping {
    /// The whole kernel window, both ends included in both directions.
    open spec fn map_to_input_ok(&self, o_position: Seq<i16>) -> bool {
        positions16_ok(*self, o_position, true)
    }

    open spec fn input_positions(&self, o_position: Seq<i16>) -> Seq<Seq<i16>> {
        positions16(*self, o_position, true)
    }

    fn map_to_input(&self, o_position: Vec<i16>) -> (result: Vec<Vec<i16>>) {
        conv_positions16(self, &o_position, true)
    }
}

impl IOMapping for LinearMapping {
    open spec fn map_to_input_ok(&self, o_position: Seq<i16>) -> bool {
        o_position.len() == 2
    }

    open spec fn input_positions(&self, o_position: Seq<i16>) -> Seq<Seq<i16>> {
        linear_positions16(*self, o_position)
    }

    fn map_to_input(&self, o_position: Vec<i16>) -> (result: Vec<Vec<i16>>) {
        let mut result: Vec<Vec<i16>> = Vec::new();
        let mut i: i16 = 0;
        while i < self.c_in
            invariant
                o_position@.len() == 2,
                0 <= i,
                i <= self.c_in || (self.c_in <= 0 && i == 0),
                result@.len() == i,
                forall|t: int| 0 <= t < i ==> (#[trigger] result@[t])@ == linear_positions16(*self, o_position@)[t],
            decreases self.c_in - i,
        {
            let mut row: Vec<i16> = Vec::new();
            row.push(o_position[0]);
            row.push(i);
            assert(row@ =~= seq![o_position@[0], i]);
            result.push(row);
            i = i + 1;
        }
        result
    }
}

impl Relu6 {
    pub fn identify(&self) -> (r: &'static str)
        ensures
            r@ == "Relu6"@,
    {
        "Relu6"
    }

    /// An activation reads exactly the position it writes.
    pub fn get_input(&self, position: Vec<i16>) -> (r: Vec<Vec<i16>>)
        ensures
            r@.len() == 1,
            r@[0]@ == position@,
    {
        let mut r = Vec::new();
        r.push(position);
        r
    }

    /// The output has the shape of the input.
    pub fn get_output_shape(&self) -> (r: Vec<i16>)
        ensures
            r@ == self.input_shape@,
    {
        copy_vec(&self.input_shape)
    }
}

} // verus!
