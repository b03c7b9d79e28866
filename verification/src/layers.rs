use vstd::prelude::*;
use vstd::arithmetic::div_mod::lemma_fundamental_div_mod_converse;
use crate::flat::{copy_vec, flat2, flat3, flat4, flatten2, flatten4, append_copies, lemma_flat3_index};
use crate::num::{div_i32, fits_i32, rem_i32, trunc_div, trunc_rem};

verus! {

/// Shape and grouping of a convolution: output channels per group (`o_pg`),
/// input channels per group (`i_pg`), strides `s`, kernel size `k`, and the
/// input `i` and output `o` shapes as (channels, rows, columns).
#[derive(Clone, Copy)]
pub struct ConvMapping {
    pub o_pg: i32,
    pub i_pg: i32,
    pub s: (i32, i32),
    pub k: (i32, i32),
    pub i: (i32, i32, i32),
    pub o: (i32, i32, i32),
}

/// Shape of a fully connected layer: batch and channel counts of its input
/// and of its output.
#[derive(Clone, Copy)]
pub struct LinearMapping {
    pub b_in: i32,
    pub c_in: i32,
    pub b_out: i32,
    pub c_out: i32,
}

/// First offset of a kernel window along one axis: `-k / 2`, rounded toward zero.
pub open spec fn window_lo(k: int) -> int {
    trunc_div(-k, 2)
}

/// Last offset of a kernel window along one axis: `k / 2`, rounded toward zero.
pub open spec fn window_hi(k: int) -> int {
    trunc_div(k, 2)
}

/// Number of offsets from `window_lo(k)` to `window_hi(k)`, both included.
pub open spec fn window_len(k: int) -> int {
    if window_hi(k) >= window_lo(k) {
        window_hi(k) - window_lo(k) + 1
    } else {
        0
    }
}

/// `rows` holds exactly the rows of `expected`, in order.
pub open spec fn rows_equal(rows: Vec<Vec<i32>>, expected: Seq<Seq<i32>>) -> bool {
    &&& rows@.len() == expected.len()
    &&& forall|t: int| 0 <= t < expected.len() ==> (#[trigger] rows@[t])@ == expected[t]
}

/// Input group of the output channel `c`.
pub open spec fn conv_group_base(m: ConvMapping, c: int) -> int {
    trunc_div(c, m.o_pg as int) * m.i_pg
}

/// The input positions (channel, row, column) that the output position `o`
/// of a convolution reads: every input channel of its group, and every
/// offset of the kernel window around `o` scaled by the strides, ordered by
/// channel, then row offset, then column offset.
pub open spec fn conv_input_positions(m: ConvMapping, o: Seq<i32>) -> Seq<Seq<i32>> {
    let g = conv_group_base(m, o[0] as int);
    let ho = o[1] * m.s.0;
    let wo = o[2] * m.s.1;
    let n0 = window_len(m.k.0 as int);
    let n1 = window_len(m.k.1 as int);
    let groups = if m.i_pg > 0 { m.i_pg as int } else { 0 };
    Seq::new(
        (groups * n0 * n1) as nat,
        |t: int|
            seq![
                (g + t / (n0 * n1)) as i32,
                (ho + window_lo(m.k.0 as int) + (t / n1) % n0) as i32,
                (wo + window_lo(m.k.1 as int) + t % n1) as i32,
            ],
    )
}

/// The inputs on which the computation of `conv_input_positions` stays
/// inside `i32` and divides by no zero.
pub open spec fn conv_map_ok(m: ConvMapping, o: Seq<i32>) -> bool {
    let g = conv_group_base(m, o[0] as int);
    let ho = o[1] * m.s.0;
    let wo = o[2] * m.s.1;
    &&& o.len() == 3
    &&& fits_i32(ho)
    &&& fits_i32(wo)
    &&& m.o_pg != 0
    &&& !(o[0] == i32::MIN && m.o_pg == -1)
    &&& fits_i32(g)
    &&& m.i_pg > 0 ==> {
        &&& m.k.0 != i32::MIN
        &&& window_len(m.k.0 as int) > 0 ==> {
            &&& m.k.1 != i32::MIN
            &&& window_len(m.k.1 as int) > 0 ==> {
                &&& fits_i32(g + m.i_pg - 1)
                &&& fits_i32(ho + window_lo(m.k.0 as int))
                &&& fits_i32(ho + window_hi(m.k.0 as int))
                &&& fits_i32(wo + window_lo(m.k.1 as int))
                &&& fits_i32(wo + window_hi(m.k.1 as int))
            }
        }
    }
}

/// The input positions that the output position `o` of a linear layer
/// reads: the whole input row `o[0]`, one position per input channel.
pub open spec fn linear_input_positions(m: LinearMapping, o: Seq<i32>) -> Seq<Seq<i32>> {
    let n = if m.c_in > 0 { m.c_in as int } else { 0 };
    Seq::new(n as nat, |t: int| seq![o[0], t as i32])
}

pub proof fn lemma_flat_index(q: int, a: int, b: int, n0: int, n1: int)
    requires
        q >= 0,
        0 <= a < n0,
        0 <= b < n1,
    ensures
        ((q * n0 + a) * n1 + b) / (n0 * n1) == q,
        ((((q * n0 + a) * n1 + b) / n1) % n0) == a,
        ((q * n0 + a) * n1 + b) % n1 == b,
{
    let t = (q * n0 + a) * n1 + b;
    lemma_fundamental_div_mod_converse(t, n1, q * n0 + a, b);
    lemma_fundamental_div_mod_converse(q * n0 + a, n0, q, a);
    assert(0 <= a * n1 + b < n0 * n1) by (nonlinear_arith)
        requires
            0 <= a < n0,
            0 <= b < n1,
    ;
    assert(t == q * (n0 * n1) + (a * n1 + b)) by (nonlinear_arith)
        requires
            t == (q * n0 + a) * n1 + b,
    ;
    lemma_fundamental_div_mod_converse(t, n0 * n1, q, a * n1 + b);
}

/// Maps an output position of a layer to the input positions it reads.
pub trait IOMapping {
    /// The inputs on which `map_to_input` neither panics nor overflows.
    spec fn map_to_input_ok(&self, o_position: Seq<i32>) -> bool;

    /// The input positions read for the output position `o_position`.
    spec fn input_positions(&self, o_position: Seq<i32>) -> Seq<Seq<i32>>;

    fn map_to_input(&self, o_position: Vec<i32>) -> (result: Vec<Vec<i32>>)
        requires
            self.map_to_input_ok(o_position@),
        ensures
            rows_equal(result, self.input_positions(o_position@)),
    ;
}

pub fn triple(a: i32, b: i32, c: i32) -> (v: Vec<i32>)
    ensures
        v@ == seq![a, b, c],
{
    let mut v = Vec::new();
    v.push(a);
    v.push(b);
    v.push(c);
    v
}

pub fn pair(a: i32, b: i32) -> (v: Vec<i32>)
    ensures
        v@ == seq![a, b],
{
    let mut v = Vec::new();
    v.push(a);
    v.push(b);
    v
}

impl IOMapping for ConvMapping {
    open spec fn map_to_input_ok(&self, o_position: Seq<i32>) -> bool {
        conv_map_ok(*self, o_position)
    }

    open spec fn input_positions(&self, o_position: Seq<i32>) -> Seq<Seq<i32>> {
        conv_input_positions(*self, o_position)
    }

    fn map_to_input(&self, o_position: Vec<i32>) -> (result: Vec<Vec<i32>>) {
        let ghost o = o_position@;
        let ghost spec_rows = conv_input_positions(*self, o);
        let h_offset = o_position[1] * self.s.0;
        let w_offset = o_position[2] * self.s.1;
        let which_group = div_i32(o_position[0], self.o_pg) * self.i_pg;
        let ghost n0 = window_len(self.k.0 as int);
        let ghost n1 = window_len(self.k.1 as int);
        let mut result: Vec<Vec<i32>> = Vec::new();
        let mut q: i32 = 0;
        while q < self.i_pg
            invariant
                conv_map_ok(*self, o),
                o == o_position@,
                spec_rows == conv_input_positions(*self, o),
                n0 == window_len(self.k.0 as int),
                n1 == window_len(self.k.1 as int),
                h_offset == o[1] * self.s.0,
                w_offset == o[2] * self.s.1,
                which_group == conv_group_base(*self, o[0] as int),
                0 <= q,
                q <= self.i_pg || self.i_pg <= 0,
                self.i_pg > 0 ==> result@.len() == q * n0 * n1,
                self.i_pg <= 0 ==> q == 0 && result@.len() == 0,
                forall|t: int| 0 <= t < result@.len() ==> (#[trigger] result@[t])@ == spec_rows[t],
            decreases self.i_pg - q,
        {
            let lo0 = div_i32(-self.k.0, 2);
            let hi0 = div_i32(self.k.0, 2);
            let mut h = lo0;
            while h <= hi0
                invariant
                    conv_map_ok(*self, o),
                    o == o_position@,
                    spec_rows == conv_input_positions(*self, o),
                    n0 == window_len(self.k.0 as int),
                    n1 == window_len(self.k.1 as int),
                    h_offset == o[1] * self.s.0,
                    w_offset == o[2] * self.s.1,
                    which_group == conv_group_base(*self, o[0] as int),
                    0 <= q < self.i_pg,
                    lo0 == window_lo(self.k.0 as int),
                    hi0 == window_hi(self.k.0 as int),
                    h == lo0 || lo0 < h <= hi0 + 1,
                    result@.len() == q * n0 * n1 + (h - lo0) * n1,
                    forall|t: int| 0 <= t < result@.len() ==> (#[trigger] result@[t])@ == spec_rows[t],
                decreases hi0 + 1 - h,
            {
                let lo1 = div_i32(-self.k.1, 2);
                let hi1 = div_i32(self.k.1, 2);
                let mut w = lo1;
                while w <= hi1
                    invariant
                        conv_map_ok(*self, o),
                        o == o_position@,
                        spec_rows == conv_input_positions(*self, o),
                        n0 == window_len(self.k.0 as int),
                        n1 == window_len(self.k.1 as int),
                        h_offset == o[1] * self.s.0,
                        w_offset == o[2] * self.s.1,
                        which_group == conv_group_base(*self, o[0] as int),
                        0 <= q < self.i_pg,
                        lo0 == window_lo(self.k.0 as int),
                        hi0 == window_hi(self.k.0 as int),
                        lo0 <= h <= hi0,
                        lo1 == window_lo(self.k.1 as int),
                        hi1 == window_hi(self.k.1 as int),
                        w == lo1 || lo1 < w <= hi1 + 1,
                        result@.len() == q * n0 * n1 + (h - lo0) * n1 + (w - lo1),
                        forall|t: int| 0 <= t < result@.len() ==> (#[trigger] result@[t])@ == spec_rows[t],
                    decreases hi1 + 1 - w,
                {
                    let row = triple(which_group + q, h_offset + h, w_offset + w);
                    proof {
                        let t = result@.len() as int;
                        let a = h - lo0;
                        let b = w - lo1;
                        assert(t == (q * n0 + a) * n1 + b) by (nonlinear_arith)
                            requires
                                t == q * n0 * n1 + a * n1 + b,
                        ;
                        lemma_flat_index(q as int, a as int, b as int, n0, n1);
                        assert(q * n0 * n1 <= t) by (nonlinear_arith)
                            requires
                                t == (q * n0 + a) * n1 + b,
                                a >= 0,
                                b >= 0,
                                n1 >= 0,
                        ;
                        assert(t < self.i_pg * n0 * n1) by (nonlinear_arith)
                            requires
                                t == (q * n0 + a) * n1 + b,
                                0 <= a < n0,
                                0 <= b < n1,
                                q + 1 <= self.i_pg,
                        ;
                    }
                    result.push(row);
                    w = w + 1;
                }
                proof {
                    assert(q * n0 * n1 + (h - lo0) * n1 + n1 == q * n0 * n1 + (h + 1 - lo0) * n1)
                        by (nonlinear_arith);
                }
                h = h + 1;
            }
            proof {
                assert(q * n0 * n1 + n0 * n1 == (q + 1) * n0 * n1) by (nonlinear_arith);
            }
            q = q + 1;
        }
        proof {
            assert(result@.len() == spec_rows.len());
        }
        result
    }
}

impl IOMapping for LinearMapping {
    open spec fn map_to_input_ok(&self, o_position: Seq<i32>) -> bool {
        o_position.len() == 2
    }

    open spec fn input_positions(&self, o_position: Seq<i32>) -> Seq<Seq<i32>> {
        linear_input_positions(*self, o_position)
    }

    fn map_to_input(&self, o_position: Vec<i32>) -> (result: Vec<Vec<i32>>) {
        let mut result: Vec<Vec<i32>> = Vec::new();
        let mut i: i32 = 0;
        while i < self.c_in
            invariant
                o_position@.len() == 2,
                0 <= i,
                i <= self.c_in || (self.c_in <= 0 && i == 0),
                result@.len() == i,
                forall|t: int| 0 <= t < i ==> (#[trigger] result@[t])@ == linear_input_positions(*self, o_position@)[t],
            decreases self.c_in - i,
        {
            result.push(pair(o_position[0], i));
            i = i + 1;
        }
        proof {
            assert(result@.len() == linear_input_positions(*self, o_position@).len());
        }
        result
    }
}


/// What a layer records about its shape, as `get_info` hands it out.
pub enum InfoWrapper {
    Convolution(ConvMapping),
    Linear(LinearMapping),
    BatchNorm2d(Vec<i32>),
    ReLU6(Vec<i32>),
}

/// The mathematical value of an `InfoWrapper`.
pub enum InfoView {
    Convolution(ConvMapping),
    Linear(LinearMapping),
    BatchNorm2d(Seq<i32>),
    ReLU6(Seq<i32>),
}

impl View for InfoWrapper {
    type V = InfoView;

    open spec fn view(&self) -> InfoView {
        match self {
            InfoWrapper::Convolution(m) => InfoView::Convolution(*m),
            InfoWrapper::Linear(m) => InfoView::Linear(*m),
            InfoWrapper::BatchNorm2d(s) => InfoView::BatchNorm2d(s@),
            InfoWrapper::ReLU6(s) => InfoView::ReLU6(s@),
        }
    }
}

impl InfoWrapper {
    /// A copy of this value.
    pub fn copied(&self) -> (r: InfoWrapper)
        ensures
            r@ == self@,
    {
        match self {
            InfoWrapper::Convolution(m) => InfoWrapper::Convolution(*m),
            InfoWrapper::Linear(m) => InfoWrapper::Linear(*m),
            InfoWrapper::BatchNorm2d(s) => InfoWrapper::BatchNorm2d(copy_vec(s)),
            InfoWrapper::ReLU6(s) => InfoWrapper::ReLU6(copy_vec(s)),
        }
    }
}

/// A convolution layer: weights indexed by output channel, input channel of
/// the group, kernel row and kernel column.
pub struct Conv<W> {
    pub w: Vec<Vec<Vec<Vec<W>>>>,
    pub info: ConvMapping,
}

/// A fully connected layer: weights indexed by output and input channel.
pub struct Linear<W> {
    pub w: Vec<Vec<W>>,
    pub info: LinearMapping,
    pub bias: Vec<W>,
}

/// A batch normalisation layer: per channel scale `w`, `bias`, running mean
/// `r_m` and running variance `r_v`.
pub struct Batchnorm2d<W> {
    pub w: Vec<W>,
    pub bias: Vec<W>,
    pub r_m: Vec<W>,
    pub r_v: Vec<W>,
    pub input_shape: Vec<i32>,
}

/// A ReLU6 activation, which keeps the shape of its input.
pub struct Relu6 {
    pub input_shape: Vec<i32>,
}

/// The input shape of a convolution once the zero padding that its kernel
/// needs is added: for kernels larger than one in both directions, half a
/// kernel on one side when the last column lands on the kernel centre, else
/// half a kernel on both sides.
pub open spec fn padded_input(m: ConvMapping) -> (i32, i32, i32) {
    if m.k.0 > 1 && m.k.1 > 1 {
        if trunc_rem(m.i.2 - 1, m.s.0 as int) == trunc_div(m.k.0 as int, 2) {
            (
                m.i.0,
                (m.i.1 + trunc_div(m.k.0 as int, 2)) as i32,
                (m.i.2 + trunc_div(m.k.1 as int, 2)) as i32,
            )
        } else {
            (
                m.i.0,
                (m.i.1 + trunc_div(m.k.0 as int, 2) * 2) as i32,
                (m.i.2 + trunc_div(m.k.1 as int, 2) * 2) as i32,
            )
        }
    } else {
        m.i
    }
}

/// The inputs on which `padded_input` neither divides by zero nor overflows.
pub open spec fn padded_input_ok(m: ConvMapping) -> bool {
    m.k.0 > 1 && m.k.1 > 1 ==> {
        &&& m.s.0 != 0
        &&& m.i.2 != i32::MIN
        &&& !(m.i.2 - 1 == i32::MIN && m.s.0 == -1)
        &&& if trunc_rem(m.i.2 - 1, m.s.0 as int) == trunc_div(m.k.0 as int, 2) {
            fits_i32(m.i.1 + trunc_div(m.k.0 as int, 2)) && fits_i32(
                m.i.2 + trunc_div(m.k.1 as int, 2),
            )
        } else {
            fits_i32(m.i.1 + trunc_div(m.k.0 as int, 2) * 2) && fits_i32(
                m.i.2 + trunc_div(m.k.1 as int, 2) * 2,
            )
        }
    }
}

/// The mapping with its input shape replaced by the padded one.
pub open spec fn padded_mapping(m: ConvMapping) -> ConvMapping {
    ConvMapping { i: padded_input(m), ..m }
}

/// Kernel column read for the `t`-th input position.
pub open spec fn kernel_col(m: ConvMapping, t: int) -> int {
    t % ((m.k.1 as usize) as int)
}

/// Kernel row read for the `t`-th input position.
pub open spec fn kernel_row(m: ConvMapping, t: int) -> int {
    (t / ((m.k.1 as usize) as int)) % ((m.k.0 as usize) as int)
}

/// The weights of output channel `oc` that a window of input positions
/// meets: for the `t`-th position, the kernel at the position's channel
/// within its group, at kernel row and column `t`.
pub open spec fn window_weights<W>(c: Conv<W>, pos: Seq<Seq<i32>>, oc: int) -> Seq<W> {
    Seq::new(
        pos.len(),
        |t: int| c.w@[oc]@[trunc_rem(pos[t][0] as int, c.info.i_pg as int)]@[kernel_row(c.info, t)]@[kernel_col(c.info, t)],
    )
}

/// Two outputs of the same channel meet the same weights over their
/// windows, wherever they lie: the weights `get_weights_from_input` takes
/// for the window of an output depend on its channel alone.
pub proof fn lemma_window_weights_same_channel<W>(c: Conv<W>, p1: Seq<i32>, p2: Seq<i32>)
    requires
        p1.len() == 3,
        p2.len() == 3,
        p1[0] == p2[0],
    ensures
        window_weights(c, conv_input_positions(c.info, p1), p1[0] as int) == window_weights(
            c,
            conv_input_positions(c.info, p2),
            p2[0] as int,
        ),
{
    let a = conv_input_positions(c.info, p1);
    let b = conv_input_positions(c.info, p2);
    assert forall|t: int| 0 <= t < a.len() implies #[trigger] a[t][0] == b[t][0] by {}
    assert(window_weights(c, a, p1[0] as int) =~= window_weights(c, b, p2[0] as int));
}

/// For an odd kernel of `k0` × `k1` weights over `i_pg` channels, the
/// weights the window of any output of channel `o` meets are the kernel
/// `w[o]` itself, read channel by channel, row by row, column by column.
/// (The output's group must start at a channel that exists: with a
/// negative group start the weights would be read at negative channels.)
pub proof fn lemma_window_weights_are_kernel<W>(c: Conv<W>, p: Seq<i32>)
    requires
        conv_map_ok(c.info, p),
        0 <= p[0] < c.w@.len(),
        conv_group_base(c.info, p[0] as int) >= 0,
        c.info.k.0 % 2 == 1,
        c.info.k.1 % 2 == 1,
        c.w@[p[0] as int]@.len() == c.info.i_pg,
        forall|a: int| 0 <= a < c.info.i_pg ==> (#[trigger] c.w@[p[0] as int]@[a])@.len() == c.info.k.0,
        forall|a: int, b: int|
            0 <= a < c.info.i_pg && 0 <= b < c.info.k.0 ==> (#[trigger] c.w@[p[0] as int]@[a]@[b])@.len() == c.info.k.1,
    ensures
        window_weights(c, conv_input_positions(c.info, p), p[0] as int) == flat3(c.w@[p[0] as int]@),
{
    let m = c.info;
    let o = p[0] as int;
    let k0 = m.k.0 as int;
    let k1 = m.k.1 as int;
    let ip = m.i_pg as int;
    if ip == 0 {
        let v = c.w@[o]@;
        assert(v.len() == 0);
        assert(v.map_values(|x: Vec<Vec<W>>| flat2(x@)) =~= Seq::<Seq<W>>::empty());
        assert(flat3(v) =~= Seq::<W>::empty());
        let n0 = window_len(m.k.0 as int);
        let n1 = window_len(m.k.1 as int);
        assert(0 * n0 * n1 == 0) by (nonlinear_arith);
        assert(conv_input_positions(m, p).len() == 0);
        assert(window_weights(c, conv_input_positions(m, p), o) =~= Seq::<W>::empty());
        return;
    }
    assert(ip > 0);
    assert(k0 > 0) by {
        assert(c.w@[o]@[0]@.len() == k0);
    }
    assert(k1 > 0) by {
        assert(c.w@[o]@[0]@[0]@.len() == k1);
    }
    assert(window_len(k0) == k0 && window_len(k1) == k1);
    let q = trunc_div(o, m.o_pg as int);
    let g = conv_group_base(m, o);
    assert(g == q * ip);
    assert(q >= 0) by (nonlinear_arith)
        requires
            g >= 0,
            ip > 0,
            g == q * ip,
    ;
    let v = c.w@[o]@;
    lemma_flat3_index(v, k0, k1);
    let pos = conv_input_positions(m, p);
    let ww = window_weights(c, pos, o);
    let fl = flat3(v);
    assert(pos.len() == ip * k0 * k1);
    assert(ip * k0 * k1 == ip * (k0 * k1)) by (nonlinear_arith);
    assert forall|t: int| 0 <= t < ww.len() implies ww[t] == fl[t] by {
        let a = t / (k0 * k1);
        let b = (t / k1) % k0;
        let d = t % k1;
        assert(k0 * k1 > 0) by (nonlinear_arith)
            requires
                k0 > 0,
                k1 > 0,
        ;
        vstd::arithmetic::div_mod::lemma_fundamental_div_mod(t, k1);
        vstd::arithmetic::div_mod::lemma_fundamental_div_mod(t / k1, k0);
        vstd::arithmetic::div_mod::lemma_div_denominator(t, k1, k0);
        assert(k1 * k0 == k0 * k1) by (nonlinear_arith);
        assert(t == (a * k0 + b) * k1 + d) by (nonlinear_arith)
            requires
                t == k1 * (t / k1) + d,
                t / k1 == k0 * ((t / k1) / k0) + b,
                (t / k1) / k0 == a,
        ;
        vstd::arithmetic::div_mod::lemma_mod_pos_bound(t, k1);
        vstd::arithmetic::div_mod::lemma_mod_pos_bound(t / k1, k0);
        assert(0 <= a < ip) by (nonlinear_arith)
            requires
                0 <= t < ip * (k0 * k1),
                k0 * k1 > 0,
                a == t / (k0 * k1),
        ;
        assert(pos[t][0] as int == g + a);
        lemma_fundamental_div_mod_converse(g + a, ip, q, a);
        assert(trunc_div(g + a, ip) == q);
        assert(ip * q == g) by (nonlinear_arith)
            requires
                g == q * ip,
        ;
        assert(trunc_rem(g + a, ip) == a);
        assert(trunc_rem(pos[t][0] as int, ip) == a);
        assert(kernel_row(m, t) == b);
        assert(kernel_col(m, t) == d);
    }
    assert(ww =~= fl);
}

/// The inputs on which `Conv::get_weights_from_input` reads inside its weights.
pub open spec fn conv_weights_ok<W>(c: Conv<W>, input: Seq<Vec<i32>>, oc: i32) -> bool {
    input.len() > 0 ==> {
        &&& c.info.k.0 != 0
        &&& c.info.k.1 != 0
        &&& c.info.i_pg != 0
        &&& 0 <= oc < c.w@.len()
        &&& forall|t: int|
            0 <= t < input.len() ==> {
                let ch = trunc_rem(input[t]@[0] as int, c.info.i_pg as int);
                &&& (#[trigger] input[t])@.len() >= 1
                &&& !(input[t]@[0] == i32::MIN && c.info.i_pg == -1)
                &&& 0 <= ch < c.w@[oc as int]@.len()
                &&& 0 <= kernel_row(c.info, t) < c.w@[oc as int]@[ch]@.len()
                &&& 0 <= kernel_col(c.info, t) < c.w@[oc as int]@[ch]@[kernel_row(c.info, t)]@.len()
            }
    }
}

impl<W: Copy> Conv<W> {
    pub fn identify(&self) -> (r: &'static str)
        ensures
            r@ == "Convolution"@,
    {
        "Convolution"
    }

    pub fn get_input(&self, position: Vec<i32>) -> (r: Vec<Vec<i32>>)
        requires
            conv_map_ok(self.info, position@),
        ensures
            rows_equal(r, conv_input_positions(self.info, position@)),
    {
        self.info.map_to_input(position)
    }

    pub fn get_output_shape(&self) -> (r: Vec<i32>)
        ensures
            r@ == seq![self.info.o.0, self.info.o.1, self.info.o.2],
    {
        triple(self.info.o.0, self.info.o.1, self.info.o.2)
    }

    pub fn get_info(&self) -> (r: InfoWrapper)
        requires
            padded_input_ok(self.info),
        ensures
            r@ == InfoView::Convolution(padded_mapping(self.info)),
    {
        let mut padded_input = self.info.i;
        if self.info.k.0 > 1 && self.info.k.1 > 1 {
            assert(trunc_div(self.info.k.0 as int, 2) == self.info.k.0 as int / 2);
            assert(trunc_div(self.info.k.1 as int, 2) == self.info.k.1 as int / 2);
            if rem_i32(self.info.i.2 - 1, self.info.s.0) == div_i32(self.info.k.0, 2) {
                padded_input.2 = padded_input.2 + div_i32(self.info.k.1, 2);
                padded_input.1 = padded_input.1 + div_i32(self.info.k.0, 2);
            } else {
                padded_input.2 = padded_input.2 + div_i32(self.info.k.1, 2) * 2;
                padded_input.1 = padded_input.1 + div_i32(self.info.k.0, 2) * 2;
            }
        }
        InfoWrapper::Convolution(
            ConvMapping {
                o_pg: self.info.o_pg,
                i_pg: self.info.i_pg,
                s: self.info.s,
                k: self.info.k,
                i: padded_input,
                o: self.info.o,
            },
        )
    }

    pub fn get_weights_from_input(&self, input: Vec<Vec<i32>>, output_channel: i32) -> (r: Vec<W>)
        requires
            conv_weights_ok(*self, input@, output_channel),
        ensures
            r@ == window_weights(*self, input@.map_values(|v: Vec<i32>| v@), output_channel as int),
    {
        let mut result: Vec<W> = Vec::new();
        let mut i: usize = 0;
        while i < input.len()
            invariant
                conv_weights_ok(*self, input@, output_channel),
                0 <= i <= input@.len(),
                result@.len() == i,
                forall|t: int|
                    0 <= t < i ==> #[trigger] result@[t] == self.w@[output_channel as int]@[trunc_rem(
                        input@[t]@[0] as int,
                        self.info.i_pg as int,
                    )]@[kernel_row(self.info, t)]@[kernel_col(self.info, t)],
            decreases input@.len() - i,
        {
            let k0 = self.info.k.0;
            let k1 = self.info.k.1;
            assert(k0 != 0 ==> #[verifier::truncate] (k0 as usize) != 0) by (bit_vector);
            assert(k1 != 0 ==> #[verifier::truncate] (k1 as usize) != 0) by (bit_vector);
            let col = i % (#[verifier::truncate] (k1 as usize));
            let row = (i / (#[verifier::truncate] (k1 as usize))) % (#[verifier::truncate] (k0 as usize));
            assert(input@[i as int]@.len() >= 1);
            let c = rem_i32(input[i][0], self.info.i_pg);
            result.push(self.w[output_channel as usize][c as usize][row][col]);
            i = i + 1;
        }
        assert(result@ =~= window_weights(*self, input@.map_values(|v: Vec<i32>| v@), output_channel as int));
        result
    }

    pub fn get_weights(&self) -> (r: Vec<W>)
        ensures
            r@ == flat4(self.w@),
    {
        flatten4(&self.w)
    }

    pub fn functional_forward(&self, input: &mut Vec<Vec<Vec<W>>>) -> (r: Result<&'static str, &'static str>)
        ensures
            r matches Err(e) && e@ == "This is a convolutional layer, not a functional layer"@,
            final(input)@ == old(input)@,
    {
        Err("This is a convolutional layer, not a functional layer")
    }
}


impl<W: Copy> Linear<W> {
    pub fn identify(&self) -> (r: &'static str)
        ensures
            r@ == "Linear"@,
    {
        "Linear"
    }

    pub fn get_input(&self, position: Vec<i32>) -> (r: Vec<Vec<i32>>)
        requires
            position@.len() == 2,
        ensures
            rows_equal(r, linear_input_positions(self.info, position@)),
    {
        self.info.map_to_input(position)
    }

    pub fn get_output_shape(&self) -> (r: Vec<i32>)
        ensures
            r@ == seq![self.info.b_out, self.info.c_out],
    {
        pair(self.info.b_out, self.info.c_out)
    }

    pub fn get_info(&self) -> (r: InfoWrapper)
        ensures
            r@ == InfoView::Linear(self.info),
    {
        InfoWrapper::Linear(
            LinearMapping {
                b_in: self.info.b_in,
                c_in: self.info.c_in,
                b_out: self.info.b_out,
                c_out: self.info.c_out,
            },
        )
    }

    pub fn get_bias(&self, p: i32) -> (r: W)
        requires
            0 <= p < self.bias@.len(),
        ensures
            r == self.bias@[p as int],
    {
        self.bias[p as usize]
    }

    pub fn get_weights_from_input(&self, input: Vec<Vec<i32>>, p: i32) -> (r: Vec<W>)
        requires
            input@.len() > 0 ==> 0 <= p < self.w@.len(),
            forall|t: int|
                0 <= t < input@.len() ==> {
                    &&& (#[trigger] input@[t])@.len() >= 2
                    &&& 0 <= input@[t]@[1] < self.w@[p as int]@.len()
                },
        ensures
            r@.len() == input@.len(),
            forall|t: int|
                0 <= t < input@.len() ==> #[trigger] r@[t] == self.w@[p as int]@[input@[t]@[1] as int],
    {
        let mut result: Vec<W> = Vec::new();
        let mut i: usize = 0;
        while i < input.len()
            invariant
                input@.len() > 0 ==> 0 <= p < self.w@.len(),
                forall|t: int|
                    0 <= t < input@.len() ==> {
                        &&& (#[trigger] input@[t])@.len() >= 2
                        &&& 0 <= input@[t]@[1] < self.w@[p as int]@.len()
                    },
                0 <= i <= input@.len(),
                result@.len() == i,
                forall|t: int|
                    0 <= t < i ==> #[trigger] result@[t] == self.w@[p as int]@[input@[t]@[1] as int],
            decreases input@.len() - i,
        {
            assert(input@[i as int]@.len() >= 2);
            result.push(self.w[p as usize][input[i][1] as usize]);
            i = i + 1;
        }
        result
    }

    pub fn get_weights(&self) -> (r: Vec<W>)
        ensures
            r@ == flat2(self.w@),
    {
        flatten2(&self.w)
    }

    pub fn functional_forward(&self, input: &mut Vec<Vec<Vec<W>>>) -> (r: Result<&'static str, &'static str>)
        ensures
            r matches Err(e) && e@ == "This is a Linear layer, not a functional layer"@,
            final(input)@ == old(input)@,
    {
        Err("This is a Linear layer, not a functional layer")
    }
}

/// The position itself, as the only input read by an element-wise layer.
pub open spec fn single_position(position: Seq<i32>) -> Seq<Seq<i32>> {
    seq![position]
}

fn single_row(position: Vec<i32>) -> (r: Vec<Vec<i32>>)
    ensures
        rows_equal(r, single_position(position@)),
{
    let mut r = Vec::new();
    r.push(position);
    r
}

impl<W: Copy> Batchnorm2d<W> {
    pub fn identify(&self) -> (r: &'static str)
        ensures
            r@ == "Batchnorm2d"@,
    {
        "Batchnorm2d"
    }

    pub fn get_input(&self, position: Vec<i32>) -> (r: Vec<Vec<i32>>)
        ensures
            rows_equal(r, single_position(position@)),
    {
        single_row(position)
    }

    /// The input shape without its leading batch dimension.
    pub fn get_output_shape(&self) -> (r: Vec<i32>)
        requires
            self.input_shape@.len() > 0,
        ensures
            r@ == self.input_shape@.drop_first(),
    {
        let mut s = copy_vec(&self.input_shape);
        s.remove(0);
        r_eq_drop_first(&self.input_shape, &s);
        s
    }

    pub fn get_info(&self) -> (r: InfoWrapper)
        ensures
            r@ == InfoView::BatchNorm2d(self.input_shape@),
    {
        InfoWrapper::BatchNorm2d(copy_vec(&self.input_shape))
    }

    pub fn get_bias(&self, p: i32) -> (r: W)
        requires
            0 <= p < self.bias@.len(),
        ensures
            r == self.bias@[p as int],
    {
        self.bias[p as usize]
    }

    /// For every input position, the running mean, running variance, scale
    /// and bias of channel `c`.
    pub fn get_weights_from_input(&self, input: Vec<Vec<i32>>, c: i32) -> (r: Vec<W>)
        requires
            input@.len() > 0 ==> {
                &&& 0 <= c
                &&& c < self.r_m@.len()
                &&& c < self.r_v@.len()
                &&& c < self.w@.len()
                &&& c < self.bias@.len()
            },
        ensures
            r@.len() == 4 * input@.len(),
            forall|t: int|
                0 <= t < input@.len() ==> {
                    &&& #[trigger] r@[4 * t] == self.r_m@[c as int]
                    &&& r@[4 * t + 1] == self.r_v@[c as int]
                    &&& r@[4 * t + 2] == self.w@[c as int]
                    &&& r@[4 * t + 3] == self.bias@[c as int]
                },
    {
        let mut result: Vec<W> = Vec::new();
        let mut i: usize = 0;
        while i < input.len()
            invariant
                input@.len() > 0 ==> {
                    &&& 0 <= c
                    &&& c < self.r_m@.len()
                    &&& c < self.r_v@.len()
                    &&& c < self.w@.len()
                    &&& c < self.bias@.len()
                },
                0 <= i <= input@.len(),
                result@.len() == 4 * i,
                forall|t: int|
                    0 <= t < i ==> {
                        &&& #[trigger] result@[4 * t] == self.r_m@[c as int]
                        &&& result@[4 * t + 1] == self.r_v@[c as int]
                        &&& result@[4 * t + 2] == self.w@[c as int]
                        &&& result@[4 * t + 3] == self.bias@[c as int]
                    },
            decreases input@.len() - i,
        {
            let ghost before = result@;
            result.push(self.r_m[c as usize]);
            result.push(self.r_v[c as usize]);
            result.push(self.w[c as usize]);
            result.push(self.bias[c as usize]);
            proof {
                assert forall|t: int| 0 <= t < i + 1 implies {
                    &&& #[trigger] result@[4 * t] == self.r_m@[c as int]
                    &&& result@[4 * t + 1] == self.r_v@[c as int]
                    &&& result@[4 * t + 2] == self.w@[c as int]
                    &&& result@[4 * t + 3] == self.bias@[c as int]
                } by {
                    if t < i {
                        assert(before[4 * t] == self.r_m@[c as int]);
                        assert(before[4 * t + 1] == self.r_v@[c as int]);
                        assert(before[4 * t + 2] == self.w@[c as int]);
                        assert(before[4 * t + 3] == self.bias@[c as int]);
                    }
                }
            }
            i = i + 1;
        }
        result
    }

    /// Running means, running variances, scales and biases, one block after the other.
    pub fn get_weights(&self) -> (r: Vec<W>)
        ensures
            r@ == self.r_m@ + self.r_v@ + self.w@ + self.bias@,
    {
        let mut r = copy_vec(&self.r_m);
        append_copies(&mut r, &self.r_v);
        append_copies(&mut r, &self.w);
        append_copies(&mut r, &self.bias);
        r
    }
}

fn r_eq_drop_first(a: &Vec<i32>, b: &Vec<i32>)
    requires
        a@.len() > 0,
        b@ == a@.remove(0),
    ensures
        b@ == a@.drop_first(),
{
    assert(a@.remove(0) =~= a@.drop_first());
}

impl Relu6 {
    pub fn identify(&self) -> (r: &'static str)
        ensures
            r@ == "Relu6"@,
    {
        "Relu6"
    }

    pub fn get_input(&self, position: Vec<i32>) -> (r: Vec<Vec<i32>>)
        ensures
            rows_equal(r, single_position(position@)),
    {
        single_row(position)
    }

    pub fn get_output_shape(&self) -> (r: Vec<i32>)
        ensures
            r@ == self.input_shape@,
    {
        copy_vec(&self.input_shape)
    }

    pub fn get_info(&self) -> (r: InfoWrapper)
        ensures
            r@ == InfoView::ReLU6(self.input_shape@),
    {
        InfoWrapper::ReLU6(copy_vec(&self.input_shape))
    }

    /// A ReLU6 layer has no weights.
    pub fn get_weights<W>(&self) -> (r: Vec<W>)
        ensures
            r@ == Seq::<W>::empty(),
    {
        Vec::new()
    }
}


/// One layer of a network, of any of the four kinds.
pub enum LayerWrapper<W> {
    Convolution(Conv<W>),
    Linear(Linear<W>),
    BatchNorm2d(Batchnorm2d<W>),
    ReLU6(Relu6),
}

/// The output shape of a layer.
pub open spec fn layer_output_shape<W>(l: LayerWrapper<W>) -> Seq<i32> {
    match l {
        LayerWrapper::Convolution(c) => seq![c.info.o.0, c.info.o.1, c.info.o.2],
        LayerWrapper::Linear(c) => seq![c.info.b_out, c.info.c_out],
        LayerWrapper::BatchNorm2d(c) => c.input_shape@.drop_first(),
        LayerWrapper::ReLU6(c) => c.input_shape@,
    }
}

/// `get_output_shape` of a batch normalisation drops the batch dimension,
/// so its input shape must have one.
pub open spec fn layer_output_shape_ok<W>(l: LayerWrapper<W>) -> bool {
    match l {
        LayerWrapper::BatchNorm2d(c) => c.input_shape@.len() > 0,
        _ => true,
    }
}

/// What `get_info` hands out for a layer.
pub open spec fn layer_info<W>(l: LayerWrapper<W>) -> InfoView {
    match l {
        LayerWrapper::Convolution(c) => InfoView::Convolution(padded_mapping(c.info)),
        LayerWrapper::Linear(c) => InfoView::Linear(c.info),
        LayerWrapper::BatchNorm2d(c) => InfoView::BatchNorm2d(c.input_shape@),
        LayerWrapper::ReLU6(c) => InfoView::ReLU6(c.input_shape@),
    }
}

pub open spec fn layer_info_ok<W>(l: LayerWrapper<W>) -> bool {
    match l {
        LayerWrapper::Convolution(c) => padded_input_ok(c.info),
        _ => true,
    }
}

/// The input positions that the output position `p` of a layer reads.
pub open spec fn layer_input_positions<W>(l: LayerWrapper<W>, p: Seq<i32>) -> Seq<Seq<i32>> {
    match l {
        LayerWrapper::Convolution(c) => conv_input_positions(c.info, p),
        LayerWrapper::Linear(c) => linear_input_positions(c.info, p),
        LayerWrapper::BatchNorm2d(_) => single_position(p),
        LayerWrapper::ReLU6(_) => single_position(p),
    }
}

pub open spec fn layer_input_ok<W>(l: LayerWrapper<W>, p: Seq<i32>) -> bool {
    match l {
        LayerWrapper::Convolution(c) => conv_map_ok(c.info, p),
        LayerWrapper::Linear(_) => p.len() == 2,
        _ => true,
    }
}

/// All weights of a layer, in the order `get_weights` lists them.
pub open spec fn layer_weights<W>(l: LayerWrapper<W>) -> Seq<W> {
    match l {
        LayerWrapper::Convolution(c) => flat4(c.w@),
        LayerWrapper::Linear(c) => flat2(c.w@),
        LayerWrapper::BatchNorm2d(c) => c.r_m@ + c.r_v@ + c.w@ + c.bias@,
        LayerWrapper::ReLU6(_) => Seq::empty(),
    }
}

impl<W: Copy> LayerWrapper<W> {
    pub fn identify(&self) -> (r: &'static str)
        ensures
            self is Convolution ==> r@ == "Convolution"@,
            self is Linear ==> r@ == "Linear"@,
            self is BatchNorm2d ==> r@ == "Batchnorm2d"@,
            self is ReLU6 ==> r@ == "Relu6"@,
    {
        match self {
            LayerWrapper::Convolution(c) => c.identify(),
            LayerWrapper::Linear(c) => c.identify(),
            LayerWrapper::BatchNorm2d(c) => c.identify(),
            LayerWrapper::ReLU6(c) => c.identify(),
        }
    }

    pub fn get_input(&self, position: Vec<i32>) -> (r: Vec<Vec<i32>>)
        requires
            layer_input_ok(*self, position@),
        ensures
            rows_equal(r, layer_input_positions(*self, position@)),
    {
        match self {
            LayerWrapper::Convolution(c) => c.get_input(position),
            LayerWrapper::Linear(c) => c.get_input(position),
            LayerWrapper::BatchNorm2d(c) => c.get_input(position),
            LayerWrapper::ReLU6(c) => c.get_input(position),
        }
    }

    pub fn get_output_shape(&self) -> (r: Vec<i32>)
        requires
            layer_output_shape_ok(*self),
        ensures
            r@ == layer_output_shape(*self),
    {
        match self {
            LayerWrapper::Convolution(c) => c.get_output_shape(),
            LayerWrapper::Linear(c) => c.get_output_shape(),
            LayerWrapper::BatchNorm2d(c) => c.get_output_shape(),
            LayerWrapper::ReLU6(c) => c.get_output_shape(),
        }
    }

    pub fn get_info(&self) -> (r: InfoWrapper)
        requires
            layer_info_ok(*self),
        ensures
            r@ == layer_info(*self),
    {
        match self {
            LayerWrapper::Convolution(c) => c.get_info(),
            LayerWrapper::Linear(c) => c.get_info(),
            LayerWrapper::BatchNorm2d(c) => c.get_info(),
            LayerWrapper::ReLU6(c) => c.get_info(),
        }
    }

    pub fn get_weights(&self) -> (r: Vec<W>)
        ensures
            r@ == layer_weights(*self),
    {
        match self {
            LayerWrapper::Convolution(c) => c.get_weights(),
            LayerWrapper::Linear(c) => c.get_weights(),
            LayerWrapper::BatchNorm2d(c) => c.get_weights(),
            LayerWrapper::ReLU6(c) => c.get_weights(),
        }
    }
}

} // verus!
