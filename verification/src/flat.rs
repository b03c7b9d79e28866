use vstd::prelude::*;

verus! {

broadcast use vstd::seq_lib::group_seq_properties;

/// The elements of a two-level vector, row after row.
pub open spec fn flat2<W>(v: Seq<Vec<W>>) -> Seq<W> {
    v.map_values(|r: Vec<W>| r@).flatten()
}

/// The elements of a three-level vector, in row-major order.
pub open spec fn flat3<W>(v: Seq<Vec<Vec<W>>>) -> Seq<W> {
    v.map_values(|r: Vec<Vec<W>>| flat2(r@)).flatten()
}

/// The elements of a four-level vector, in row-major order.
pub open spec fn flat4<W>(v: Seq<Vec<Vec<Vec<W>>>>) -> Seq<W> {
    v.map_values(|r: Vec<Vec<Vec<W>>>| flat3(r@)).flatten()
}

/// Flattening rows of one length `l` puts element `j` of row `i` at
/// `i * l + j`.
pub proof fn lemma_uniform_flatten<A>(s: Seq<Seq<A>>, l: int)
    requires
        l >= 0,
        forall|i: int| 0 <= i < s.len() ==> (#[trigger] s[i]).len() == l,
    ensures
        s.flatten().len() == s.len() * l,
        forall|i: int, j: int| 0 <= i < s.len() && 0 <= j < l ==> s.flatten()[i * l + j] == #[trigger] s[i][j],
    decreases s.len(),
{
    if s.len() > 0 {
        let rest = s.drop_first();
        lemma_uniform_flatten(rest, l);
        assert(s.flatten() == s[0] + rest.flatten());
        assert(s.len() * l == l + rest.len() * l) by (nonlinear_arith)
            requires
                rest.len() == s.len() - 1,
        ;
        assert forall|i: int, j: int| 0 <= i < s.len() && 0 <= j < l implies s.flatten()[i * l + j] == #[trigger] s[i][j] by {
            if i > 0 {
                assert(i * l + j == l + ((i - 1) * l + j)) by (nonlinear_arith);
                assert(0 <= (i - 1) * l + j < rest.len() * l) by (nonlinear_arith)
                    requires
                        0 <= i - 1 < rest.len(),
                        0 <= j < l,
                ;
                assert(rest[i - 1] == s[i]);
            } else {
                assert(i * l + j == j) by (nonlinear_arith)
                    requires
                        i == 0,
                ;
            }
        }
    }
}

/// The kernel `v` of `n` channels of `r` rows of `c` weights each, read in
/// the order channel, row, column: weight `(a, b, d)` sits at
/// `(a * r + b) * c + d`.
pub proof fn lemma_flat3_index<W>(v: Seq<Vec<Vec<W>>>, r: int, c: int)
    requires
        r >= 0,
        c >= 0,
        forall|a: int| 0 <= a < v.len() ==> (#[trigger] v[a])@.len() == r,
        forall|a: int, b: int| 0 <= a < v.len() && 0 <= b < r ==> (#[trigger] v[a]@[b])@.len() == c,
    ensures
        flat3(v).len() == v.len() * (r * c),
        forall|a: int, b: int, d: int|
            0 <= a < v.len() && 0 <= b < r && 0 <= d < c ==> flat3(v)[(a * r + b) * c + d] == #[trigger] v[a]@[b]@[d],
{
    let rows = v.map_values(|x: Vec<Vec<W>>| flat2(x@));
    assert forall|a: int| 0 <= a < rows.len() implies (#[trigger] rows[a]).len() == r * c by {
        let inner = v[a]@.map_values(|y: Vec<W>| y@);
        assert forall|b: int| 0 <= b < inner.len() implies (#[trigger] inner[b]).len() == c by {}
        lemma_uniform_flatten(inner, c);
    }
    lemma_uniform_flatten(rows, r * c);
    assert forall|a: int, b: int, d: int|
        0 <= a < v.len() && 0 <= b < r && 0 <= d < c implies flat3(v)[(a * r + b) * c + d] == #[trigger] v[a]@[b]@[d] by {
        let inner = v[a]@.map_values(|y: Vec<W>| y@);
        assert forall|b2: int| 0 <= b2 < inner.len() implies (#[trigger] inner[b2]).len() == c by {}
        lemma_uniform_flatten(inner, c);
        assert(0 <= b * c + d < r * c) by (nonlinear_arith)
            requires
                0 <= b < r,
                0 <= d < c,
        ;
        assert((a * r + b) * c + d == a * (r * c) + (b * c + d)) by (nonlinear_arith);
        assert(inner[b][d] == v[a]@[b]@[d]);
        assert(rows[a][b * c + d] == inner[b][d]);
    }
}

/// Appends the elements of `src` to `dst`.
pub fn append_copies<W: Copy>(dst: &mut Vec<W>, src: &Vec<W>)
    ensures
        final(dst)@ == old(dst)@ + src@,
{
    let mut i: usize = 0;
    while i < src.len()
        invariant
            0 <= i <= src@.len(),
            dst@ == old(dst)@ + src@.take(i as int),
        decreases src@.len() - i,
    {
        proof {
            assert(src@.take(i as int + 1) =~= src@.take(i as int).push(src@[i as int]));
        }
        dst.push(src[i]);
        i = i + 1;
    }
    proof {
        assert(src@.take(src@.len() as int) =~= src@);
    }
}

/// A copy of `src`, element by element.
pub fn copy_vec<W: Copy>(src: &Vec<W>) -> (r: Vec<W>)
    ensures
        r@ == src@,
{
    let mut r = Vec::new();
    append_copies(&mut r, src);
    proof {
        assert(Seq::<W>::empty() + src@ =~= src@);
    }
    r
}

proof fn lemma_take_push_map<A, B>(s: Seq<A>, i: int, f: spec_fn(A) -> B)
    requires
        0 <= i < s.len(),
    ensures
        s.take(i + 1).map_values(f) == s.take(i).map_values(f).push(f(s[i])),
{
    assert(s.take(i + 1).map_values(f) =~= s.take(i).map_values(f).push(f(s[i])));
}

/// The elements of `v`, row after row.
pub fn flatten2<W: Copy>(v: &Vec<Vec<W>>) -> (r: Vec<W>)
    ensures
        r@ == flat2(v@),
{
    let mut r = Vec::new();
    let mut i: usize = 0;
    proof {
        assert(v@.take(0).map_values(|x: Vec<W>| x@) =~= Seq::<Seq<W>>::empty());
    }
    while i < v.len()
        invariant
            0 <= i <= v@.len(),
            r@ == v@.take(i as int).map_values(|x: Vec<W>| x@).flatten(),
        decreases v@.len() - i,
    {
        append_copies(&mut r, &v[i]);
        proof {
            lemma_take_push_map(v@, i as int, |x: Vec<W>| x@);
            v@.take(i as int).map_values(|x: Vec<W>| x@).lemma_flatten_push(v@[i as int]@);
        }
        i = i + 1;
    }
    proof {
        assert(v@.take(v@.len() as int) =~= v@);
    }
    r
}

/// The elements of `v` in row-major order.
pub fn flatten3<W: Copy>(v: &Vec<Vec<Vec<W>>>) -> (r: Vec<W>)
    ensures
        r@ == flat3(v@),
{
    let mut r = Vec::new();
    let mut i: usize = 0;
    proof {
        assert(v@.take(0).map_values(|x: Vec<Vec<W>>| flat2(x@)) =~= Seq::<Seq<W>>::empty());
    }
    while i < v.len()
        invariant
            0 <= i <= v@.len(),
            r@ == v@.take(i as int).map_values(|x: Vec<Vec<W>>| flat2(x@)).flatten(),
        decreases v@.len() - i,
    {
        let row = flatten2(&v[i]);
        append_copies(&mut r, &row);
        proof {
            lemma_take_push_map(v@, i as int, |x: Vec<Vec<W>>| flat2(x@));
            v@.take(i as int).map_values(|x: Vec<Vec<W>>| flat2(x@)).lemma_flatten_push(
                flat2(v@[i as int]@),
            );
        }
        i = i + 1;
    }
    proof {
        assert(v@.take(v@.len() as int) =~= v@);
    }
    r
}

/// The elements of `v` in row-major order.
pub fn flatten4<W: Copy>(v: &Vec<Vec<Vec<Vec<W>>>>) -> (r: Vec<W>)
    ensures
        r@ == flat4(v@),
{
    let mut r = Vec::new();
    let mut i: usize = 0;
    proof {
        assert(v@.take(0).map_values(|x: Vec<Vec<Vec<W>>>| flat3(x@)) =~= Seq::<Seq<W>>::empty());
    }
    while i < v.len()
        invariant
            0 <= i <= v@.len(),
            r@ == v@.take(i as int).map_values(|x: Vec<Vec<Vec<W>>>| flat3(x@)).flatten(),
        decreases v@.len() - i,
    {
        let row = flatten3(&v[i]);
        append_copies(&mut r, &row);
        proof {
            lemma_take_push_map(v@, i as int, |x: Vec<Vec<Vec<W>>>| flat3(x@));
            v@.take(i as int).map_values(|x: Vec<Vec<Vec<W>>>| flat3(x@)).lemma_flatten_push(
                flat3(v@[i as int]@),
            );
        }
        i = i + 1;
    }
    proof {
        assert(v@.take(v@.len() as int) =~= v@);
    }
    r
}

/// The box of `arr` that the sizes of its first plane and first row span,
/// in row-major order: element `f` is `arr[f / (r * c)][(f / c) % r][f % c]`.
pub open spec fn box_elements<W>(arr: Seq<Vec<Vec<W>>>) -> Seq<W> {
    let n = arr.len() as int;
    let r = if n > 0 { arr[0]@.len() as int } else { 0 };
    let c = if n > 0 && r > 0 { arr[0]@[0]@.len() as int } else { 0 };
    Seq::new((n * r * c) as nat, |f: int| arr[f / (r * c)]@[(f / c) % r]@[f % c])
}

/// The elements of a three-level vector in row-major order, every plane
/// and row read with the sizes of the first.
pub fn flatten_3d_array<W: Copy>(arr: Vec<Vec<Vec<W>>>) -> (flattened: Vec<W>)
    requires
        arr@.len() > 0 ==> forall|i: int| 0 <= i < arr@.len() ==> (#[trigger] arr@[i])@.len() >= arr@[0]@.len(),
        arr@.len() > 0 && arr@[0]@.len() > 0 ==> forall|i: int, j: int|
            0 <= i < arr@.len() && 0 <= j < arr@[0]@.len() ==> (#[trigger] arr@[i]@[j])@.len() >= arr@[0]@[0]@.len(),
    ensures
        flattened@ == box_elements(arr@),
{
    let ghost n = arr@.len() as int;
    let ghost r = if n > 0 { arr@[0]@.len() as int } else { 0 };
    let ghost c = if n > 0 && r > 0 { arr@[0]@[0]@.len() as int } else { 0 };
    let mut flattened: Vec<W> = Vec::new();
    if arr.len() == 0 {
        proof {
            assert(box_elements(arr@) =~= Seq::<W>::empty());
        }
        return flattened;
    }
    proof {
        assert(0 * r * c == 0) by (nonlinear_arith);
    }
    let mut i: usize = 0;
    while i < arr.len()
        invariant
            n == arr@.len(),
            n > 0,
            r == arr@[0]@.len(),
            r > 0 ==> c == arr@[0]@[0]@.len(),
            r == 0 ==> c == 0,
            forall|i2: int| 0 <= i2 < arr@.len() ==> (#[trigger] arr@[i2])@.len() >= r,
            r > 0 ==> forall|i2: int, j: int| 0 <= i2 < arr@.len() && 0 <= j < r ==> (#[trigger] arr@[i2]@[j])@.len() >= c,
            0 <= i <= n,
            flattened@.len() == i * r * c,
            forall|f: int| 0 <= f < flattened@.len() ==> #[trigger] flattened@[f] == arr@[f / (r * c)]@[(f / c) % r]@[f % c],
        decreases n - i,
    {
        let mut j: usize = 0;
        while j < arr[0].len()
            invariant
                n == arr@.len(),
                r == arr@[0]@.len(),
                r > 0 ==> c == arr@[0]@[0]@.len(),
                r > 0 ==> forall|i2: int, j2: int| 0 <= i2 < arr@.len() && 0 <= j2 < r ==> (#[trigger] arr@[i2]@[j2])@.len() >= c,
                forall|i2: int| 0 <= i2 < arr@.len() ==> (#[trigger] arr@[i2])@.len() >= r,
                0 <= i < n,
                0 <= j <= r,
                flattened@.len() == (i * r + j) * c,
                forall|f: int| 0 <= f < flattened@.len() ==> #[trigger] flattened@[f] == arr@[f / (r * c)]@[(f / c) % r]@[f % c],
            decreases r - j,
        {
            let mut k: usize = 0;
            while k < arr[0][0].len()
                invariant
                    n == arr@.len(),
                    r == arr@[0]@.len(),
                    r > 0,
                    c == arr@[0]@[0]@.len(),
                    forall|i2: int, j2: int| 0 <= i2 < arr@.len() && 0 <= j2 < r ==> (#[trigger] arr@[i2]@[j2])@.len() >= c,
                    forall|i2: int| 0 <= i2 < arr@.len() ==> (#[trigger] arr@[i2])@.len() >= r,
                    0 <= i < n,
                    0 <= j < r,
                    0 <= k <= c,
                    flattened@.len() == (i * r + j) * c + k,
                    forall|f: int| 0 <= f < flattened@.len() ==> #[trigger] flattened@[f] == arr@[f / (r * c)]@[(f / c) % r]@[f % c],
                decreases c - k,
            {
                proof {
                    crate::layers::lemma_flat_index(i as int, j as int, k as int, r, c);
                }
                assert(arr@[i as int]@[j as int]@.len() >= c);
                flattened.push(arr[i][j][k]);
                k = k + 1;
            }
            proof {
                assert((i * r + j) * c + c == (i * r + j + 1) * c) by (nonlinear_arith);
            }
            j = j + 1;
        }
        proof {
            assert((i * r + r) * c == (i + 1) * r * c) by (nonlinear_arith);
        }
        i = i + 1;
    }
    proof {
        if n == 0 {
        }
        assert(flattened@ =~= box_elements(arr@));
    }
    flattened
}

} // verus!
