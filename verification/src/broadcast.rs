//! Broadcasting of plain shapes, and the table that says, for every position
//! of a broadcast result, which element of an operand it reads.

use crate::layout::coords;
use crate::layout::lemma_coords_in_bounds;
use crate::layout::lemma_coords_of_linear;
use crate::layout::lemma_product_positive;
use crate::layout::lemma_product_skip;
use crate::layout::lemma_product_split;
use crate::layout::linear;
use crate::layout::nats;
use crate::layout::product;
use vstd::prelude::*;

verus! {

/// The extent that a shape has at position `k` of a right-aligned shape of
/// `n` axes: its own extent where it has an axis there, and one where it
/// does not.
pub open spec fn aligned(s: Seq<usize>, n: int, k: int) -> usize {
    if k >= n - s.len() {
        s[k - (n - s.len())]
    } else {
        1
    }
}

/// The larger of two lengths.
pub open spec fn longer(a: int, b: int) -> int {
    if a >= b {
        a
    } else {
        b
    }
}

/// The broadcast of two shapes: they are aligned at the right, and every
/// extent of the result is the larger of the two aligned extents.
pub open spec fn broadcast_spec(a: Seq<usize>, b: Seq<usize>) -> Seq<usize> {
    let n = longer(a.len() as int, b.len() as int);
    Seq::new(
        n as nat,
        |k: int|
            if aligned(a, n, k) >= aligned(b, n, k) {
                aligned(a, n, k)
            } else {
                aligned(b, n, k)
            },
    )
}

/// The broadcast of two shapes.
pub fn broadcast_with(shape1: &[usize], shape2: &[usize]) -> (r: Vec<usize>)
    ensures
        r@ == broadcast_spec(shape1@, shape2@),
{
    let n1: usize = shape1.len();
    let n2: usize = shape2.len();
    let n: usize = if n1 >= n2 { n1 } else { n2 };
    let mut result: Vec<usize> = Vec::new();
    let mut k: usize = 0;
    while k < n
        invariant
            k <= n,
            n1 == shape1.len(),
            n2 == shape2.len(),
            n == longer(n1 as int, n2 as int),
            result.len() == k,
            forall|j: int| 0 <= j < k ==> result[j] == broadcast_spec(shape1@, shape2@)[j],
        decreases n - k,
    {
        let dim1: usize = if k >= n - n1 { shape1[k - (n - n1)] } else { 1 };
        let dim2: usize = if k >= n - n2 { shape2[k - (n - n2)] } else { 1 };
        result.push(if dim1 >= dim2 { dim1 } else { dim2 });
        k += 1;
    }
    assert(result@ =~= broadcast_spec(shape1@, shape2@));
    result
}

/// The row-major strides of a shape: the stride of an axis is the product of
/// the extents after it.
pub open spec fn strides_spec(shape: Seq<usize>) -> Seq<nat> {
    Seq::new(shape.len(), |k: int| product(nats(shape).skip(k + 1)))
}

/// Whether every row-major stride of the shape fits the machine word.
pub open spec fn strides_fit(shape: Seq<usize>) -> bool {
    forall|k: int| 0 <= k < shape.len() ==> #[trigger] strides_spec(shape)[k] <= usize::MAX
}

/// The row-major strides of a shape.
pub fn compute_strides(shape: &[usize]) -> (r: Vec<usize>)
    requires
        strides_fit(shape@),
    ensures
        nats(r@) == strides_spec(shape@),
{
    let n: usize = shape.len();
    let ghost vals = nats(shape@);
    let mut strides: Vec<usize> = Vec::new();
    let mut k: usize = 0;
    while k < n
        invariant
            k <= n,
            strides.len() == k,
            forall|j: int| 0 <= j < k ==> strides[j] == 1,
        decreases n - k,
    {
        strides.push(1);
        k += 1;
    }
    if n == 0 {
        assert(nats(strides@) =~= strides_spec(shape@));
        return strides;
    }
    let mut i: usize = n - 1;
    proof {
        assert(vals.skip(n as int) =~= Seq::<nat>::empty());
        assert(product(vals.skip(n as int)) == 1);
    }
    while i > 0
        invariant
            0 <= i < n,
            n == shape.len(),
            vals == nats(shape@),
            strides.len() == n,
            strides_fit(shape@),
            forall|j: int| i <= j < n ==> strides[j] as nat == product(vals.skip(j + 1)),
        decreases i,
    {
        proof {
            lemma_product_skip(vals, i as int);
            assert(strides_spec(shape@)[i - 1] <= usize::MAX);
            assert(vals[i as int] == shape[i as int]);
            let x = shape[i as int] as int;
            let y = strides[i as int] as int;
            assert(x * y == y * x) by (nonlinear_arith);
        }
        let s: usize = strides[i] * shape[i];
        strides.set(i - 1, s);
        i -= 1;
    }
    assert(nats(strides@) =~= strides_spec(shape@));
    strides
}

/// The coordinates, within an operand of shape `shape`, of the element that
/// position `n` of a result of shape `target` reads: the operand is aligned
/// at the right, and each coordinate of the position is taken modulo the
/// operand's extent, so that an axis of extent one is read at zero.
pub open spec fn source_coords(shape: Seq<usize>, target: Seq<usize>, n: nat) -> Seq<nat> {
    let c = coords(nats(target), n);
    let off = target.len() - shape.len();
    Seq::new(shape.len(), |i: int| if shape[i] == 0 { 0 } else { c[i + off] % (shape[i] as nat) })
}

/// The index, within an operand of shape `shape`, of the element that
/// position `n` of a result of shape `target` reads.
pub open spec fn source_index(shape: Seq<usize>, target: Seq<usize>, n: nat) -> nat {
    linear(nats(shape), source_coords(shape, target, n))
}

/// What an operand's shape and a result's shape must satisfy for a table of
/// source indices to exist: the operand has no more axes than the result
/// and no empty one, and both element counts fit the machine word.
pub open spec fn tabulable(shape: Seq<usize>, target: Seq<usize>) -> bool {
    &&& shape.len() <= target.len()
    &&& forall|i: int| 0 <= i < shape.len() ==> shape[i] > 0
    &&& product(nats(shape)) <= usize::MAX
    &&& product(nats(target)) <= usize::MAX
}

/// The coordinates of position `n` of a row-major array of the given
/// extents.
pub fn digits_of(extents: &[usize], n: usize) -> (r: Vec<usize>)
    requires
        n < product(nats(extents@)),
    ensures
        nats(r@) == coords(nats(extents@), n as nat),
{
    let len: usize = extents.len();
    let ghost vals = nats(extents@);
    proof {
        lemma_product_positive(vals);
    }
    let mut digits: Vec<usize> = Vec::new();
    let mut j: usize = 0;
    while j < len
        invariant
            j <= len,
            digits.len() == j,
        decreases len - j,
    {
        digits.push(0);
        j += 1;
    }
    let mut cur: usize = n;
    let mut k: usize = len;
    assert(vals.take(k as int) =~= vals);
    assert(nats(digits@).skip(k as int) =~= Seq::<nat>::empty());
    assert(coords(vals, n as nat) =~= coords(vals, n as nat).add(Seq::<nat>::empty()));
    while k > 0
        invariant
            k <= len,
            len == extents.len(),
            digits.len() == len,
            vals == nats(extents@),
            forall|i: int| 0 <= i < vals.len() ==> vals[i] > 0,
            coords(vals, n as nat) == coords(vals.take(k as int), cur as nat).add(
                nats(digits@).skip(k as int),
            ),
        decreases k,
    {
        let ghost part = vals.take(k as int);
        let ghost before = nats(digits@);
        let size: usize = extents[k - 1];
        proof {
            assert(part.last() == size);
            assert(part.drop_last() =~= vals.take(k - 1));
            assert(vals[k - 1] > 0);
        }
        digits.set(k - 1, cur % size);
        proof {
            let head = coords(vals.take(k - 1), (cur / size) as nat);
            let x = (cur % size) as nat;
            assert(coords(part, cur as nat) == head.push(x));
            assert(head.push(x).add(before.skip(k as int)) =~= head.add(
                nats(digits@).skip(k - 1),
            )) by {
                let pre = vals.take(k - 1);
                assert forall|q: int| 0 <= q < pre.len() implies pre[q] > 0 by {
                    assert(vals[q] > 0);
                }
                lemma_coords_in_bounds(pre, (cur / size) as nat);
            }
        }
        cur = cur / size;
        k -= 1;
    }
    assert(vals.take(0) =~= Seq::<nat>::empty());
    assert(coords(vals.take(0), cur as nat) =~= Seq::<nat>::empty());
    assert(nats(digits@).skip(0) =~= nats(digits@));
    assert(Seq::<nat>::empty().add(nats(digits@)) =~= nats(digits@));
    digits
}

/// For every position of a result of shape `broadcast_shape`, the index of
/// the element of an operand of shape `shape` that the position reads.
pub fn compute_indices(shape: &[usize], broadcast_shape: &[usize]) -> (r: Vec<usize>)
    requires
        tabulable(shape@, broadcast_shape@),
    ensures
        r.len() == product(nats(broadcast_shape@)),
        forall|n: int|
            0 <= n < r.len() ==> r[n] as nat == source_index(shape@, broadcast_shape@, n as nat),
{
    let ghost svals = nats(shape@);
    let ghost tvals = nats(broadcast_shape@);
    let total: usize = match crate::layout::checked_product(broadcast_shape) {
        Some(t) => t,
        None => 0,
    };
    proof {
        assert forall|k: int| 0 <= k < shape.len() implies #[trigger] strides_spec(shape@)[k]
            <= usize::MAX by {
            lemma_product_split(svals, k + 1);
            lemma_product_positive(svals);
            lemma_product_positive(svals.take(k + 1));
            let a = product(svals.take(k + 1));
            let b = product(svals.skip(k + 1));
            assert(b <= a * b) by (nonlinear_arith)
                requires
                    a >= 1,
                    b >= 0,
            ;
        }
    }
    let strides = compute_strides(shape);
    let rank: usize = shape.len();
    assert(strides.len() == rank) by {
        assert(nats(strides@).len() == strides.len());
    }
    let offset: usize = broadcast_shape.len() - rank;
    let mut indices: Vec<usize> = Vec::new();
    let mut n: usize = 0;
    while n < total
        invariant
            n <= total,
            total == product(tvals),
            svals == nats(shape@),
            tvals == nats(broadcast_shape@),
            tabulable(shape@, broadcast_shape@),
            nats(strides@) == strides_spec(shape@),
            strides.len() == rank,
            rank == shape.len(),
            offset == broadcast_shape.len() - rank,
            indices.len() == n,
            forall|j: int|
                0 <= j < n ==> indices[j] as nat == source_index(
                    shape@,
                    broadcast_shape@,
                    j as nat,
                ),
        decreases total - n,
    {
        let digits = digits_of(broadcast_shape, n);
        let ghost c = source_coords(shape@, broadcast_shape@, n as nat);
        proof {
            lemma_product_positive(tvals);
            lemma_coords_in_bounds(tvals, n as nat);
            assert(digits.len() == broadcast_shape.len()) by {
                assert(nats(digits@).len() == digits.len());
            }
        }
        let mut idx: usize = 0;
        let mut i: usize = 0;
        proof {
            assert(svals.take(0) =~= Seq::<nat>::empty());
            assert(svals.skip(0) =~= svals);
            assert(linear(svals.take(0), c.take(0)) == 0);
            assert(0 * product(svals) == 0) by (nonlinear_arith);
        }
        while i < rank
            invariant
                i <= rank,
                rank == shape.len(),
                svals == nats(shape@),
                tvals == nats(broadcast_shape@),
                tabulable(shape@, broadcast_shape@),
                nats(strides@) == strides_spec(shape@),
                strides.len() == rank,
                offset == broadcast_shape.len() - rank,
                digits.len() == broadcast_shape.len(),
                nats(digits@) == coords(tvals, n as nat),
                c == source_coords(shape@, broadcast_shape@, n as nat),
                idx as nat == linear(svals.take(i as int), c.take(i as int)) * product(
                    svals.skip(i as int),
                ),
            decreases rank - i,
        {
            let dim: usize = shape[i];
            let digit: usize = digits[i + offset] % dim;
            proof {
                assert(nats(digits@)[i + offset] == digits[i + offset]);
                assert(c[i as int] == digit);
                assert(nats(strides@)[i as int] == strides[i as int]);
                assert(strides_spec(shape@)[i as int] == product(svals.skip(i + 1)));
                let st = svals.take(i + 1);
                let ct = c.take(i + 1);
                assert(st.drop_last() =~= svals.take(i as int));
                assert(ct.drop_last() =~= c.take(i as int));
                assert(st.last() == dim);
                assert(ct.last() == digit);
                assert(crate::layout::in_bounds(st, ct)) by {
                    assert forall|q: int| 0 <= q < st.len() implies ct[q] < st[q] by {
                        assert(c[q] < svals[q]) by {
                            assert(shape[q] > 0);
                            let v = coords(tvals, n as nat)[q + offset];
                            let d = shape[q] as nat;
                            assert(v % d < d) by (nonlinear_arith)
                                requires
                                    d > 0,
                            ;
                        }
                    }
                }
                lemma_coords_of_linear(st, ct);
                lemma_product_skip(svals, i as int);
                lemma_product_split(svals, i + 1);
                lemma_product_positive(svals);
                lemma_product_positive(svals.skip(i + 1)) ;
                let l0 = linear(svals.take(i as int), c.take(i as int)) as int;
                let l1 = linear(st, ct) as int;
                let unit = product(svals.skip(i + 1)) as int;
                let pt = product(st) as int;
                let d = dim as int;
                let g = digit as int;
                assert(l1 == l0 * d + g);
                assert(unit >= 1) by {
                    let rest = svals.skip(i + 1);
                    assert forall|q: int| 0 <= q < rest.len() implies rest[q] > 0 by {
                        assert(svals[q + i + 1] > 0);
                    }
                }
                assert(l0 * (d * unit) + g * unit == l1 * unit) by (nonlinear_arith)
                    requires
                        l1 == l0 * d + g,
                ;
                assert(l1 * unit < pt * unit) by (nonlinear_arith)
                    requires
                        l1 < pt,
                        unit >= 1,
                ;
                assert(g * unit <= l1 * unit) by (nonlinear_arith)
                    requires
                        l1 == l0 * d + g,
                        l0 >= 0,
                        d >= 0,
                        unit >= 0,
                        g >= 0,
                ;
            }
            idx = idx + digit * strides[i];
            i += 1;
        }
        proof {
            assert(svals.take(rank as int) =~= svals);
            assert(c.take(rank as int) =~= c);
            assert(svals.skip(rank as int) =~= Seq::<nat>::empty());
            assert(product(svals.skip(rank as int)) == 1);
            let l = linear(svals, c);
            assert(l * 1 == l) by (nonlinear_arith);
        }
        indices.push(idx);
        n += 1;
    }
    indices
}

/// The two tables of a binary operation on operands of the given shapes:
/// for every position of the broadcast result, the index that it reads in
/// the left operand and the index that it reads in the right one.
pub fn precompute_binary_op_metadata(lhs_shape: &[usize], rhs_shape: &[usize]) -> (r: (
    Vec<usize>,
    Vec<usize>,
))
    requires
        tabulable(lhs_shape@, broadcast_spec(lhs_shape@, rhs_shape@)),
        tabulable(rhs_shape@, broadcast_spec(lhs_shape@, rhs_shape@)),
    ensures
        r.0.len() == product(nats(broadcast_spec(lhs_shape@, rhs_shape@))),
        r.1.len() == r.0.len(),
        forall|n: int|
            0 <= n < r.0.len() ==> r.0[n] as nat == source_index(
                lhs_shape@,
                broadcast_spec(lhs_shape@, rhs_shape@),
                n as nat,
            ),
        forall|n: int|
            0 <= n < r.1.len() ==> r.1[n] as nat == source_index(
                rhs_shape@,
                broadcast_spec(lhs_shape@, rhs_shape@),
                n as nat,
            ),
{
    let broadcast_shape = broadcast_with(lhs_shape, rhs_shape);
    let lhs_indices = compute_indices(lhs_shape, broadcast_shape.as_slice());
    let rhs_indices = compute_indices(rhs_shape, broadcast_shape.as_slice());
    (lhs_indices, rhs_indices)
}

} // verus!
