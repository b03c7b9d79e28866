use vstd::prelude::*;

verus! {

/// Byte `i` of `n` in little-endian order, where the last byte loses its top
/// bit (the top bit of `n` is reserved as a padding marker).
pub open spec fn split_byte(n: u128, i: int) -> u8 {
    if i < 15 {
        ((n >> ((8 * i) as u128)) & 0xff) as u8
    } else {
        ((n >> 120u128) & 0x7f) as u8
    }
}

/// The sixteen bytes that `split_u128_to_u8` gives for `n`.
pub open spec fn split_bytes(n: u128) -> Seq<u8> {
    Seq::new(16, |i: int| split_byte(n, i))
}

/// Bit `p` of a byte string read as a little-endian bit field: bit `p % 8`
/// of byte `p / 8`.
pub open spec fn byte_bit(input: Seq<u8>, p: int) -> bool {
    &&& 0 <= p < 8 * input.len()
    &&& (input[p / 8] >> ((p % 8) as u8)) & 1u8 == 1u8
}

/// Positions `0 .. n` as `usize`.
pub open spec fn positions(n: int) -> Seq<usize> {
    Seq::new(n as nat, |p: int| p as usize)
}

/// The positions of the set bits of `input`, in increasing order.
pub open spec fn set_bit_positions(input: Seq<u8>) -> Seq<usize> {
    positions((8 * input.len()) as int).filter(|p: usize| byte_bit(input, p as int))
}

/// The positions of the set bits of `n` below bit 127, in increasing order.
pub open spec fn set_bits_below_127(n: u128) -> Seq<usize> {
    positions(128).filter(|p: usize| p < 127 && (n >> (p as u128)) & 1u128 == 1u128)
}

/// Splits `number` into its sixteen bytes, least significant first, and
/// clears the top bit of the last byte.
pub fn split_u128_to_u8(number: u128) -> (result: Vec<u8>)
    ensures
        result@ == split_bytes(number),
{
    let mut result: Vec<u8> = Vec::new();
    let mut i: usize = 0;
    while i < 16
        invariant
            0 <= i <= 16,
            result@.len() == i,
            forall|j: int| 0 <= j < i ==> #[trigger] result@[j] == split_byte(number, j),
        decreases 16 - i,
    {
        let shift = (i * 8) as u128;
        let mut chunk = ((number >> shift) & 0xFF) as u8;
        if i == 15 && (chunk >> 7u8) & 1u8 == 1u8 {
            chunk = chunk & 0x7F;
        }
        proof {
            if i == 15 {
                let c = ((number >> 120u128) & 0xff) as u8;
                assert(((c >> 7u8) & 1u8 == 1u8 ==> (c & 0x7f) == ((number >> 120u128) & 0x7f) as u8)
                    && ((c >> 7u8) & 1u8 != 1u8 ==> c == ((number >> 120u128) & 0x7f) as u8))
                    by (bit_vector)
                    requires
                        c == ((number >> 120u128) & 0xff) as u8,
                ;
            }
        }
        result.push(chunk);
        i = i + 1;
    }
    proof {
        assert(result@ =~= split_bytes(number));
    }
    result
}

proof fn lemma_positions_take(n: int, k: int)
    requires
        0 <= k < n,
    ensures
        positions(n).take(k + 1) == positions(n).take(k).push(k as usize),
{
    assert(positions(n).take(k + 1) =~= positions(n).take(k).push(k as usize));
}

/// The positions of the set bits of `input`, read as a little-endian bit
/// field (bit `i` of byte `j` is position `8 * j + i`), in increasing order.
pub fn decode_u128(input: &Vec<u8>) -> (next_mcus: Vec<usize>)
    requires
        8 * input@.len() <= usize::MAX,
    ensures
        next_mcus@ == set_bit_positions(input@),
{
    let ghost pred = |p: usize| byte_bit(input@, p as int);
    let ghost all = positions((8 * input@.len()) as int);
    let mut next_mcus: Vec<usize> = Vec::new();
    let mut offset: usize = 0;
    proof {
        reveal_with_fuel(Seq::filter, 1);
        assert(all.take(0).filter(pred) =~= Seq::<usize>::empty());
    }
    let mut j: usize = 0;
    while j < input.len()
        invariant
            8 * input@.len() <= usize::MAX,
            0 <= j <= input@.len(),
            offset == 8 * j,
            pred == (|p: usize| byte_bit(input@, p as int)),
            all == positions((8 * input@.len()) as int),
            next_mcus@ == all.take(offset as int).filter(pred),
        decreases input@.len() - j,
    {
        let t = input[j];
        let mut i: usize = 0;
        while i < 8
            invariant
                8 * input@.len() <= usize::MAX,
                0 <= j < input@.len(),
                offset == 8 * j,
                t == input@[j as int],
                0 <= i <= 8,
                pred == (|p: usize| byte_bit(input@, p as int)),
                all == positions((8 * input@.len()) as int),
                next_mcus@ == all.take((offset + i) as int).filter(pred),
            decreases 8 - i,
        {
            proof {
                let k = offset + i;
                lemma_positions_take((8 * input@.len()) as int, k as int);
                assert(all.take(k + 1).drop_last() =~= all.take(k as int));
                assert(k / 8 == j as int && k % 8 == i as int);
                assert(all.take(k + 1).last() == k as usize);
                assert(pred(k as usize) == ((t >> (i as u8)) & 1u8 == 1u8));
                reveal_with_fuel(Seq::filter, 1);
            }
            if (t >> i as u8) & 1u8 == 1u8 {
                next_mcus.push(offset + i);
            }
            i = i + 1;
        }
        offset = offset + 8;
        j = j + 1;
    }
    proof {
        assert(all.take(offset as int) =~= all);
    }
    next_mcus
}


proof fn lemma_low_byte_bit(n: u128, s: u128, b: u8)
    by (bit_vector)
    requires
        s <= 112,
        b < 8,
    ensures
        (((((n >> s) & 0xff) as u8) >> b) & 1u8 == 1u8) == ((n >> (s + b as u128)) & 1u128 == 1u128),
{
}

proof fn lemma_top_byte_bit(n: u128, b: u8)
    by (bit_vector)
    requires
        b < 8,
    ensures
        (((((n >> 120u128) & 0x7f) as u8) >> b) & 1u8 == 1u8) == (b < 7 && (n >> (120u128 + b as u128)) & 1u128 == 1u128),
{
}

/// Splitting a number with `split_u128_to_u8` and decoding the bytes with
/// `decode_u128` gives back the positions of the set bits of the number,
/// except bit 127, which the split clears.
pub proof fn lemma_decode_inverts_split(n: u128)
    ensures
        set_bit_positions(split_bytes(n)) == set_bits_below_127(n),
{
    let f = |p: usize| byte_bit(split_bytes(n), p as int);
    let g = |p: usize| p < 127 && (n >> (p as u128)) & 1u128 == 1u128;
    assert forall|p: usize| #[trigger] f(p) == g(p) by {
        if p < 128 {
            let i = p / 8;
            let b = (p % 8) as u8;
            if i < 15 {
                lemma_low_byte_bit(n, (8 * i) as u128, b);
            } else {
                lemma_top_byte_bit(n, b);
            }
            assert((8 * i) as u128 + b as u128 == p as u128);
        }
    }
    assert(f =~= g);
}


/// The number that a byte string encodes, least significant byte first.
pub open spec fn le_value(s: Seq<u8>) -> int
    decreases s.len(),
{
    if s.len() == 0 {
        0
    } else {
        s[0] + 256 * le_value(s.skip(1))
    }
}

proof fn lemma_split_byte_step(n: u128, s: u128)
    by (bit_vector)
    requires
        s <= 112,
    ensures
        ((((n >> s) & 0xff) as u8) as u128) == (n >> s) & 0xff,
        ((n >> s) & 0xff) + 256 * ((n & 0x7fff_ffff_ffff_ffff_ffff_ffff_ffff_ffffu128) >> (s + 8)) == (n
            & 0x7fff_ffff_ffff_ffff_ffff_ffff_ffff_ffffu128) >> s,
{
}

proof fn lemma_split_top_byte(n: u128)
    by (bit_vector)
    ensures
        ((((n >> 120u128) & 0x7f) as u8) as u128) == (n & 0x7fff_ffff_ffff_ffff_ffff_ffff_ffff_ffffu128) >> 120u128,
{
}

proof fn lemma_split_suffix(n: u128, i: int)
    requires
        0 <= i <= 15,
    ensures
        le_value(split_bytes(n).skip(i)) == ((n & 0x7fff_ffff_ffff_ffff_ffff_ffff_ffff_ffffu128) >> ((8 * i) as u128)) as int,
    decreases 15 - i,
{
    let b = split_bytes(n).skip(i);
    assert(b.skip(1) =~= split_bytes(n).skip(i + 1));
    if i == 15 {
        assert(b.skip(1).len() == 0);
        lemma_split_top_byte(n);
        assert(le_value(b) == b[0] + 256 * le_value(b.skip(1)));
    } else {
        lemma_split_suffix(n, i + 1);
        lemma_split_byte_step(n, (8 * i) as u128);
        assert(((8 * i) as u128 + 8) as u128 == (8 * (i + 1)) as u128);
        assert(le_value(b) == b[0] + 256 * le_value(b.skip(1)));
    }
}

/// The sixteen bytes of `split_u128_to_u8`, read back as a little-endian
/// number, give the number with its top bit cleared: the number itself
/// whenever it is below `2^127`.
pub proof fn lemma_split_le_value(n: u128)
    ensures
        le_value(split_bytes(n)) == (n & 0x7fff_ffff_ffff_ffff_ffff_ffff_ffff_ffffu128) as int,
        n < 0x8000_0000_0000_0000_0000_0000_0000_0000u128 ==> le_value(split_bytes(n)) == n as int,
{
    lemma_split_suffix(n, 0);
    assert(split_bytes(n).skip(0) =~= split_bytes(n));
    assert((n & 0x7fff_ffff_ffff_ffff_ffff_ffff_ffff_ffffu128) >> 0u128 == n & 0x7fff_ffff_ffff_ffff_ffff_ffff_ffff_ffffu128)
        by (bit_vector);
    assert(n < 0x8000_0000_0000_0000_0000_0000_0000_0000u128 ==> n & 0x7fff_ffff_ffff_ffff_ffff_ffff_ffff_ffffu128 == n)
        by (bit_vector);
}

proof fn lemma_shifted_filter(n: int, m: int, f: spec_fn(usize) -> bool, g: spec_fn(usize) -> bool)
    requires
        0 <= n,
        0 <= m,
        n + m <= usize::MAX,
        forall|p: int| 0 <= p < m ==> #[trigger] g((p + n) as usize) == f(p as usize),
    ensures
        positions(n + m).filter(g) == positions(n).filter(g) + positions(m).filter(f).map_values(
            |p: usize| (p + n) as usize,
        ),
    decreases m,
{
    reveal_with_fuel(Seq::filter, 1);
    if m == 0 {
        assert(positions(n + m) =~= positions(n));
        assert(positions(m).filter(f) =~= Seq::<usize>::empty());
        assert(positions(m).filter(f).map_values(|p: usize| (p + n) as usize) =~= Seq::<usize>::empty());
        assert(positions(n).filter(g) + Seq::<usize>::empty() =~= positions(n).filter(g));
    } else {
        lemma_shifted_filter(n, m - 1, f, g);
        let a = positions(n + m);
        let b = positions(m);
        assert(a.drop_last() =~= positions(n + m - 1));
        assert(b.drop_last() =~= positions(m - 1));
        assert(a.last() == (n + m - 1) as usize);
        assert(b.last() == (m - 1) as usize);
        assert(g(((m - 1) + n) as usize) == f((m - 1) as usize));
        let sh = |p: usize| (p + n) as usize;
        let prev = positions(m - 1).filter(f);
        if f((m - 1) as usize) {
            assert(b.filter(f) == prev.push((m - 1) as usize));
            assert(prev.push((m - 1) as usize).map_values(sh) =~= prev.map_values(sh).push((n + m - 1) as usize));
            assert(a.filter(g) == positions(n + m - 1).filter(g).push((n + m - 1) as usize));
            assert(positions(n).filter(g) + prev.map_values(sh).push((n + m - 1) as usize) =~= (positions(n).filter(g)
                + prev.map_values(sh)).push((n + m - 1) as usize));
        } else {
            assert(b.filter(f) == prev);
            assert(a.filter(g) == positions(n + m - 1).filter(g));
        }
    }
}

/// Decoding two byte strings laid end to end gives the positions of the
/// first, then those of the second moved past the first's bits: the bit
/// fields of consecutive bytes join.
pub proof fn lemma_decode_concat(a: Seq<u8>, b: Seq<u8>)
    requires
        8 * (a.len() + b.len()) <= usize::MAX,
    ensures
        set_bit_positions(a + b) == set_bit_positions(a) + set_bit_positions(b).map_values(
            |p: usize| (p + 8 * a.len()) as usize,
        ),
{
    let ab = a + b;
    let n = 8 * a.len();
    let m = 8 * b.len();
    let g = |p: usize| byte_bit(ab, p as int);
    let fa = |p: usize| byte_bit(a, p as int);
    let fb = |p: usize| byte_bit(b, p as int);
    assert forall|p: int| 0 <= p < m implies #[trigger] g((p + n) as usize) == fb(p as usize) by {
        assert((p + n) / 8 == p / 8 + a.len() && (p + n) % 8 == p % 8) by (nonlinear_arith)
            requires
                n == 8 * a.len(),
                p >= 0,
        ;
        assert(ab[(p + n) / 8] == b[p / 8]);
    }
    lemma_shifted_filter(n as int, m as int, fb, g);
    assert forall|p: int| 0 <= p < n implies #[trigger] g((p + 0) as usize) == fa(p as usize) by {
        assert(p / 8 < a.len()) by (nonlinear_arith)
            requires
                n == 8 * a.len(),
                0 <= p < n,
        ;
        assert(ab[p / 8] == a[p / 8]);
    }
    lemma_shifted_filter(0, n as int, fa, g);
    assert(positions(0).filter(g) =~= Seq::<usize>::empty()) by {
        reveal_with_fuel(Seq::filter, 1);
    }
    assert(positions(n as int).filter(fa).map_values(|p: usize| (p + 0) as usize) =~= positions(n as int).filter(fa));
    assert(positions((0 + n) as int) =~= positions(n as int));
    assert(Seq::<usize>::empty() + positions(n as int).filter(fa) =~= positions(n as int).filter(fa));
    assert(positions((n + m) as int) =~= positions((8 * ab.len()) as int));
    assert(g == (|p: usize| byte_bit(ab, p as int)));
}

/// Whether the position `a` lies outside the input: negative, or at or past
/// the first channel's extent in some direction (the extents are read as
/// `i32`, as the comparison does).
pub open spec fn outside_input<T>(a: Seq<i32>, input: Seq<Vec<Vec<T>>>) -> bool {
    ||| a[0] < 0
    ||| a[1] < 0
    ||| a[2] < 0
    ||| a[0] >= (input.len() as i32)
    ||| a[1] >= (input[0]@.len() as i32)
    ||| a[2] >= (input[0]@[0]@.len() as i32)
}

/// The positions of `p` can be read: each has as many coordinates as the
/// test reads, and a position inside the input lies inside its own row.
pub open spec fn zero_padding_ok<T>(p: Seq<Vec<i32>>, input: Seq<Vec<Vec<T>>>) -> bool {
    forall|t: int|
        0 <= t < p.len() ==> {
            let a = (#[trigger] p[t])@;
            &&& a.len() >= 1
            &&& a[0] >= 0 ==> a.len() >= 2
            &&& a[0] >= 0 && a[1] >= 0 ==> a.len() >= 3
            &&& !outside_input(a, input) ==> {
                &&& a[1] < input[a[0] as int]@.len()
                &&& a[2] < input[a[0] as int]@[a[1] as int]@.len()
            }
        }
}

/// The value read at position `a`: `zero` outside the input.
pub open spec fn padded_value<T>(a: Seq<i32>, input: Seq<Vec<Vec<T>>>, zero: T) -> T {
    if outside_input(a, input) {
        zero
    } else {
        input[a[0] as int]@[a[1] as int]@[a[2] as int]
    }
}

/// Sampling with zero padding reads the input itself at every position
/// inside it (channel below the number of channels, row below the number
/// of rows, column below the number of columns of the first channel), and
/// gives `zero` exactly at the positions past the rows or the columns, or
/// before the start.
pub proof fn lemma_padded_sampling<T>(a: Seq<i32>, input: Seq<Vec<Vec<T>>>, zero: T)
    requires
        a.len() >= 3,
        input.len() > 0,
        input.len() <= i32::MAX,
        input[0]@.len() <= i32::MAX,
        input[0]@.len() > 0 ==> input[0]@[0]@.len() <= i32::MAX,
    ensures
        0 <= a[0] < input.len() && 0 <= a[1] < input[0]@.len() && 0 <= a[2] < input[0]@[0]@.len() ==> padded_value(
            a,
            input,
            zero,
        ) == input[a[0] as int]@[a[1] as int]@[a[2] as int],
        a[0] < 0 || a[1] < 0 || a[2] < 0 || a[0] >= input.len() || a[1] >= input[0]@.len() || (input[0]@.len() > 0
            && a[2] >= input[0]@[0]@.len()) ==> padded_value(a, input, zero) == zero,
{
}

/// The input values at the positions `p`, with `zero` for the positions
/// outside the input (zero padding).
pub fn sample_input_from_p_zero_padding<T: Copy>(
    p: Vec<Vec<i32>>,
    input: &Vec<Vec<Vec<T>>>,
    zero: T,
) -> (result: Vec<T>)
    requires
        zero_padding_ok(p@, input@),
    ensures
        result@.len() == p@.len(),
        forall|t: int|
            0 <= t < p@.len() ==> #[trigger] result@[t] == padded_value(p@[t]@, input@, zero),
{
    let mut result: Vec<T> = Vec::new();
    let mut i: usize = 0;
    while i < p.len()
        invariant
            zero_padding_ok(p@, input@),
            0 <= i <= p@.len(),
            result@.len() == i,
            forall|t: int|
                0 <= t < i ==> #[trigger] result@[t] == padded_value(p@[t]@, input@, zero),
        decreases p@.len() - i,
    {
        let a = &p[i];
        assert(a@ == p@[i as int]@);
        if a[0] < 0 || a[1] < 0 || a[2] < 0 || a[0] >= input.len() as i32 || a[1]
            >= input[0].len() as i32 || a[2] >= input[0][0].len() as i32 {
            result.push(zero);
        } else {
            result.push(input[a[0] as usize][a[1] as usize][a[2] as usize]);
        }
        i = i + 1;
    }
    result
}

/// The input values at the positions `p`, each a (row, column) pair.
pub fn sample_input_linear<T: Copy>(p: Vec<Vec<i32>>, input: &Vec<Vec<T>>) -> (result: Vec<T>)
    requires
        forall|t: int|
            0 <= t < p@.len() ==> {
                let a = (#[trigger] p@[t])@;
                &&& a.len() >= 2
                &&& 0 <= a[0] < input@.len()
                &&& 0 <= a[1] < input@[a[0] as int]@.len()
            },
    ensures
        result@.len() == p@.len(),
        forall|t: int|
            0 <= t < p@.len() ==> #[trigger] result@[t] == input@[p@[t]@[0] as int]@[p@[t]@[1] as int],
{
    let mut result: Vec<T> = Vec::new();
    let mut i: usize = 0;
    while i < p.len()
        invariant
            forall|t: int|
                0 <= t < p@.len() ==> {
                    let a = (#[trigger] p@[t])@;
                    &&& a.len() >= 2
                    &&& 0 <= a[0] < input@.len()
                    &&& 0 <= a[1] < input@[a[0] as int]@.len()
                },
            0 <= i <= p@.len(),
            result@.len() == i,
            forall|t: int|
                0 <= t < i ==> #[trigger] result@[t] == input@[p@[t]@[0] as int]@[p@[t]@[1] as int],
        decreases p@.len() - i,
    {
        let a = &p[i];
        assert(a@ == p@[i as int]@);
        result.push(input[a[0] as usize][a[1] as usize]);
        i = i + 1;
    }
    result
}

} // verus!
