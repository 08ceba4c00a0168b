//! The index tables that a pass computes once, when it installs an operator
//! that runs outside the library, so that the operator need not compute
//! them each time it runs.

use crate::broadcast::broadcast_spec;
use crate::broadcast::broadcast_with;
use crate::broadcast::digits_of;
use crate::dim::DynMap;
use crate::elementwise::top_shape;
use crate::graph::ReduceOpMetadata;
use crate::indexer::resolve_outcome;
use crate::layout::checked_product;
use crate::layout::coords;
use crate::layout::count;
use crate::layout::in_bounds;
use crate::layout::lemma_coords_in_bounds;
use crate::layout::lemma_coords_of_linear;
use crate::layout::lemma_product_positive;
use crate::layout::lemma_product_prefix;
use crate::layout::linear;
use crate::layout::nats;
use crate::layout::product;
use crate::layout::sizes;
use crate::layout::Plane;
use crate::layout::Span;
use crate::tracker::LayerSpec;
use crate::tracker::ShapeError;
use crate::tracker::ShapeTracker;
use vstd::prelude::*;

verus! {

/// The broadcast of two shapes: they are aligned at the right, and every
/// extent of the result is the larger of the two aligned extents.
pub fn broadcast_shapes(shape1: &[usize], shape2: &[usize]) -> (r: Vec<usize>)
    ensures
        r@ == broadcast_spec(shape1@, shape2@),
{
    broadcast_with(shape1, shape2)
}

/// The index of an element among the elements of an operand that are
/// stored: the coordinates along the axes that are not broadcast, each
/// taken modulo the extent, in row-major order.
pub open spec fn packed_index(shape: Seq<usize>, fake: Seq<bool>, c: Seq<nat>) -> nat
    decreases shape.len(),
{
    if shape.len() == 0 {
        0
    } else {
        let rest = packed_index(shape.drop_last(), fake.drop_last(), c.drop_last());
        if fake.last() || shape.last() == 0 {
            rest
        } else {
            rest * (shape.last() as nat) + c.last() % (shape.last() as nat)
        }
    }
}

/// The index of a stored element lies below the element count of the shape.
pub proof fn lemma_packed_bound(shape: Seq<usize>, fake: Seq<bool>, c: Seq<nat>)
    requires
        fake.len() == shape.len(),
        c.len() == shape.len(),
        forall|i: int| 0 <= i < shape.len() ==> shape[i] > 0,
    ensures
        packed_index(shape, fake, c) < product(nats(shape)),
    decreases shape.len(),
{
    let vals = nats(shape);
    if shape.len() > 0 {
        let s = shape.drop_last();
        assert(vals.drop_last() =~= nats(s));
        assert forall|i: int| 0 <= i < s.len() implies s[i] > 0 by {
            assert(s[i] == shape[i]);
        }
        lemma_packed_bound(s, fake.drop_last(), c.drop_last());
        let rest = packed_index(s, fake.drop_last(), c.drop_last());
        let p = product(nats(s));
        let d = shape.last() as nat;
        let x = c.last() % d;
        assert(vals.last() == d);
        assert(x < d) by (nonlinear_arith)
            requires
                d > 0,
                x == c.last() % d,
        ;
        assert(rest * d + x < p * d && rest < p * d) by (nonlinear_arith)
            requires
                rest < p,
                x < d,
                d > 0,
        ;
    }
}

/// The part of the coordinates of position `n` of the result that belongs to
/// an operand of `rank` axes, aligned at the right.
pub open spec fn operand_coords(target: Seq<usize>, rank: int, n: nat) -> Seq<nat> {
    coords(nats(target), n).skip(target.len() - rank)
}

/// For every position of a result of shape `broadcast_shape`, the index,
/// among the stored elements of an operand of shape `shape`, of the element
/// that the position reads; `fake` marks the axes of the operand that are
/// broadcast.
pub fn compute_indices(shape: &[usize], broadcast_shape: &[usize], fake: &[bool]) -> (r: Vec<
    usize,
>)
    requires
        fake.len() == shape.len(),
        shape.len() <= broadcast_shape.len(),
        forall|i: int| 0 <= i < shape.len() ==> shape[i] > 0,
        product(nats(shape@)) <= usize::MAX,
        product(nats(broadcast_shape@)) <= usize::MAX,
    ensures
        r.len() == product(nats(broadcast_shape@)),
        forall|n: int|
            0 <= n < r.len() ==> r[n] as nat == packed_index(
                shape@,
                fake@,
                operand_coords(broadcast_shape@, shape.len() as int, n as nat),
            ),
{
    let total: usize = match checked_product(broadcast_shape) {
        Some(t) => t,
        None => 0,
    };
    let rank: usize = shape.len();
    let offset: usize = broadcast_shape.len() - rank;
    let ghost svals = nats(shape@);
    let mut indices: Vec<usize> = Vec::new();
    let mut n: usize = 0;
    while n < total
        invariant
            n <= total,
            total == product(nats(broadcast_shape@)),
            rank == shape.len(),
            fake.len() == rank,
            offset == broadcast_shape.len() - rank,
            svals == nats(shape@),
            forall|i: int| 0 <= i < shape.len() ==> shape[i] > 0,
            product(svals) <= usize::MAX,
            indices.len() == n,
            forall|j: int|
                0 <= j < n ==> indices[j] as nat == packed_index(
                    shape@,
                    fake@,
                    operand_coords(broadcast_shape@, rank as int, j as nat),
                ),
        decreases total - n,
    {
        let digits = digits_of(broadcast_shape, n);
        let ghost c = operand_coords(broadcast_shape@, rank as int, n as nat);
        proof {
            lemma_product_positive(nats(broadcast_shape@));
            lemma_coords_in_bounds(nats(broadcast_shape@), n as nat);
            assert(nats(digits@).len() == digits.len());
        }
        let mut idx: usize = 0;
        let mut i: usize = 0;
        proof {
            assert(shape@.take(0) =~= Seq::<usize>::empty());
        }
        while i < rank
            invariant
                i <= rank,
                rank == shape.len(),
                fake.len() == rank,
                offset == broadcast_shape.len() - rank,
                digits.len() == broadcast_shape.len(),
                nats(digits@) == coords(nats(broadcast_shape@), n as nat),
                c == operand_coords(broadcast_shape@, rank as int, n as nat),
                svals == nats(shape@),
                forall|q: int| 0 <= q < shape.len() ==> shape[q] > 0,
                product(svals) <= usize::MAX,
                idx as nat == packed_index(
                    shape@.take(i as int),
                    fake@.take(i as int),
                    c.take(i as int),
                ),
            decreases rank - i,
        {
            let dim: usize = shape[i];
            proof {
                let st = shape@.take(i + 1);
                let ft = fake@.take(i + 1);
                let ct = c.take(i + 1);
                assert(st.drop_last() =~= shape@.take(i as int));
                assert(ft.drop_last() =~= fake@.take(i as int));
                assert(ct.drop_last() =~= c.take(i as int));
                assert(st.last() == dim);
                assert(ft.last() == fake[i as int]);
                assert(ct.last() == c[i as int]);
                assert(c[i as int] == digits[i + offset]) by {
                    assert(nats(digits@)[i + offset] == digits[i + offset]);
                }
                assert forall|q: int| 0 <= q < st.len() implies st[q] > 0 by {
                    assert(st[q] == shape[q]);
                }
                lemma_packed_bound(st, ft, ct);
                assert(nats(st) =~= svals.take(i + 1));
                assert forall|q: int| 0 <= q < svals.len() implies svals[q] > 0 by {
                    assert(svals[q] == shape[q]);
                }
                lemma_product_prefix(svals, i + 1);
                let rest = idx as int;
                let d = dim as int;
                assert(rest * d >= 0) by (nonlinear_arith)
                    requires
                        rest >= 0,
                        d >= 0,
                ;
            }
            if !fake[i] {
                idx = idx * dim + digits[i + offset] % dim;
            }
            i += 1;
        }
        proof {
            assert(shape@.take(rank as int) =~= shape@);
            assert(fake@.take(rank as int) =~= fake@);
            assert(c.take(rank as int) =~= c);
        }
        indices.push(idx);
        n += 1;
    }
    indices
}

/// For every axis of the logical shape of a resolved tracker, whether it is
/// a broadcast axis.
pub open spec fn top_fakes(planes: Seq<Plane>) -> Seq<bool> {
    planes.last().axes.map_values(|a: Span| a.fake)
}

/// Whether `table` holds, for every position of a result of shape `target`,
/// the index among the stored elements of the operand that resolves to
/// `planes`.
pub open spec fn packed_table(table: Seq<usize>, planes: Seq<Plane>, target: Seq<usize>) -> bool {
    &&& table.len() == product(nats(target))
    &&& forall|n: int|
        0 <= n < table.len() ==> table[n] as nat == packed_index(
            top_shape(planes),
            top_fakes(planes),
            operand_coords(target, top_shape(planes).len() as int, n as nat),
        )
}

/// What the tables of a binary operation on operands read through two
/// trackers are: the first tracker that does not resolve gives its reason; a
/// result with more positions than the machine word counts, and an operand
/// without elements, have no tables.
pub open spec fn packed_tables(
    lhs: Seq<LayerSpec>,
    rhs: Seq<LayerSpec>,
    env: Map<char, usize>,
    r: Result<(Vec<usize>, Vec<usize>), ShapeError>,
) -> bool {
    match (resolve_outcome(lhs, env), resolve_outcome(rhs, env)) {
        (Err(e), _) => r == Err::<(Vec<usize>, Vec<usize>), ShapeError>(e),
        (Ok(_), Err(e)) => r == Err::<(Vec<usize>, Vec<usize>), ShapeError>(e),
        (Ok(pa), Ok(pb)) => {
            let target = broadcast_spec(top_shape(pa), top_shape(pb));
            if product(nats(target)) > usize::MAX {
                r == Err::<(Vec<usize>, Vec<usize>), ShapeError>(ShapeError::Overflow)
            } else if count(pa.last().axes) == 0 || count(pb.last().axes) == 0 {
                r == Err::<(Vec<usize>, Vec<usize>), ShapeError>(ShapeError::BroadcastMismatch)
            } else {
                &&& r is Ok
                &&& packed_table(r->Ok_0.0@, pa, target)
                &&& packed_table(r->Ok_0.1@, pb, target)
            }
        },
    }
}

/// The tables of a binary operation on operands read through two trackers:
/// for every position of the broadcast result, the index of the element
/// that the position reads, among the stored elements of each operand. The
/// axes that a tracker marks as broadcast take no part in the index.
pub fn precompute_binary_op_metadata(
    lhs_shape: &ShapeTracker,
    rhs_shape: &ShapeTracker,
    env: &DynMap,
) -> (r: Result<(Vec<usize>, Vec<usize>), ShapeError>)
    ensures
        packed_tables(lhs_shape@, rhs_shape@, env@, r),
{
    let ixa = match lhs_shape.indexer(env) {
        Ok(ix) => ix,
        Err(e) => {
            return Err(e);
        },
    };
    let ixb = match rhs_shape.indexer(env) {
        Ok(ix) => ix,
        Err(e) => {
            return Err(e);
        },
    };
    let sa = ixa.shape();
    let sb = ixb.shape();
    proof {
        assert(sa@ =~= top_shape(ixa@)) by {
            assert forall|i: int| 0 <= i < sa.len() implies sa[i] == top_shape(ixa@)[i] by {
                assert(nats(sa@)[i] == sa[i]);
            }
        }
        assert(sb@ =~= top_shape(ixb@)) by {
            assert forall|i: int| 0 <= i < sb.len() implies sb[i] == top_shape(ixb@)[i] by {
                assert(nats(sb@)[i] == sb[i]);
            }
        }
    }
    let target = broadcast_shapes(sa.as_slice(), sb.as_slice());
    if checked_product(target.as_slice()).is_none() {
        return Err(ShapeError::Overflow);
    }
    if ixa.n_elements() == 0 || ixb.n_elements() == 0 {
        return Err(ShapeError::BroadcastMismatch);
    }
    let fa = ixa.fakes();
    let fb = ixb.fakes();
    proof {
        lemma_product_positive(nats(sa@));
        lemma_product_positive(nats(sb@));
        assert forall|i: int| 0 <= i < sa.len() implies sa[i] > 0 by {
            assert(nats(sa@)[i] == sa[i]);
        }
        assert forall|i: int| 0 <= i < sb.len() implies sb[i] > 0 by {
            assert(nats(sb@)[i] == sb[i]);
        }
    }
    let lhs_indices = compute_indices(sa.as_slice(), target.as_slice(), fa.as_slice());
    let rhs_indices = compute_indices(sb.as_slice(), target.as_slice(), fb.as_slice());
    Ok((lhs_indices, rhs_indices))
}

/// A sequence without the entry at position `axis`, if it has one.
pub open spec fn drop_axis<A>(s: Seq<A>, axis: int) -> Seq<A> {
    if 0 <= axis < s.len() {
        s.remove(axis)
    } else {
        s
    }
}

/// The position of the output that position `n` of an input of shape `shape`
/// is folded into by a reduction along `axis`: the position with the same
/// coordinates along the other axes.
pub open spec fn reduce_target(shape: Seq<usize>, axis: int, n: nat) -> nat {
    linear(drop_axis(nats(shape), axis), drop_axis(coords(nats(shape), n), axis))
}

/// The table of a reduction along `axis` of an input of shape
/// `input_shape`, and the number of elements of its output.
pub fn precompute_reduce_op_metadata(input_shape: &[usize], axis: usize) -> (r: ReduceOpMetadata)
    requires
        axis < input_shape.len(),
        product(nats(input_shape@)) <= usize::MAX,
        product(drop_axis(nats(input_shape@), axis as int)) <= usize::MAX,
    ensures
        r.output_size == product(drop_axis(nats(input_shape@), axis as int)),
        r.output_indices.len() == product(nats(input_shape@)),
        forall|n: int|
            0 <= n < r.output_indices.len() ==> r.output_indices[n] as nat == reduce_target(
                input_shape@,
                axis as int,
                n as nat,
            ),
{
    let rank: usize = input_shape.len();
    let ghost vals = nats(input_shape@);
    let ghost kept = drop_axis(vals, axis as int);
    let mut others: Vec<usize> = Vec::new();
    let mut k: usize = 0;
    while k < rank
        invariant
            k <= rank,
            rank == input_shape.len(),
            axis < rank,
            others@ == drop_axis(input_shape@.take(k as int), axis as int),
        decreases rank - k,
    {
        proof {
            let next = input_shape@.take(k + 1);
            let now = input_shape@.take(k as int);
            if k == axis {
                assert(next.remove(axis as int) =~= now);
            } else if k < axis {
                assert(next =~= now.push(input_shape[k as int]));
            } else {
                assert(next.remove(axis as int) =~= now.remove(axis as int).push(
                    input_shape[k as int],
                ));
            }
        }
        if k != axis {
            others.push(input_shape[k]);
        }
        k += 1;
    }
    proof {
        assert(input_shape@.take(rank as int) =~= input_shape@);
        assert(nats(others@) =~= kept);
    }
    let output_size: usize = match checked_product(others.as_slice()) {
        Some(p) => p,
        None => 0,
    };
    let total: usize = match checked_product(input_shape) {
        Some(t) => t,
        None => 0,
    };
    let mut output_indices: Vec<usize> = Vec::new();
    let mut n: usize = 0;
    while n < total
        invariant
            n <= total,
            total == product(vals),
            rank == input_shape.len(),
            axis < rank,
            vals == nats(input_shape@),
            kept == drop_axis(vals, axis as int),
            product(kept) <= usize::MAX,
            output_indices.len() == n,
            forall|j: int|
                0 <= j < n ==> output_indices[j] as nat == reduce_target(
                    input_shape@,
                    axis as int,
                    j as nat,
                ),
        decreases total - n,
    {
        let digits = digits_of(input_shape, n);
        let ghost c = coords(vals, n as nat);
        proof {
            lemma_product_positive(vals);
            lemma_coords_in_bounds(vals, n as nat);
            assert(nats(digits@).len() == digits.len());
            assert(vals.take(0) =~= Seq::<nat>::empty());
            assert(c.take(0) =~= Seq::<nat>::empty());
            assert forall|q: int| 0 <= q < kept.len() implies kept[q] > 0 by {
                if q < axis {
                    assert(kept[q] == vals[q]);
                } else {
                    assert(kept[q] == vals[q + 1]);
                }
            }
        }
        let mut idx: usize = 0;
        let mut i: usize = 0;
        while i < rank
            invariant
                i <= rank,
                rank == input_shape.len(),
                axis < rank,
                vals == nats(input_shape@),
                kept == drop_axis(vals, axis as int),
                product(kept) <= usize::MAX,
                forall|q: int| 0 <= q < kept.len() ==> kept[q] > 0,
                digits.len() == rank,
                nats(digits@) == c,
                c == coords(vals, n as nat),
                in_bounds(vals, c),
                idx as nat == linear(
                    drop_axis(vals.take(i as int), axis as int),
                    drop_axis(c.take(i as int), axis as int),
                ),
            decreases rank - i,
        {
            proof {
                let vt = vals.take(i + 1);
                let ct = c.take(i + 1);
                let vn = vals.take(i as int);
                let cn = c.take(i as int);
                let dv = drop_axis(vt, axis as int);
                let dc = drop_axis(ct, axis as int);
                assert(vals[i as int] == input_shape[i as int]);
                assert(c[i as int] == digits[i as int]) by {
                    assert(nats(digits@)[i as int] == digits[i as int]);
                }
                if i == axis {
                    assert(dv =~= drop_axis(vn, axis as int));
                    assert(dc =~= drop_axis(cn, axis as int));
                } else {
                    assert(dv.drop_last() =~= drop_axis(vn, axis as int));
                    assert(dc.drop_last() =~= drop_axis(cn, axis as int));
                    assert(dv.last() == vals[i as int]);
                    assert(dc.last() == c[i as int]);
                    assert(in_bounds(dv, dc)) by {
                        assert forall|q: int| 0 <= q < dv.len() implies dc[q] < dv[q] by {
                            if i < axis || q < axis {
                                assert(dv[q] == vals[q] && dc[q] == c[q]);
                            } else {
                                assert(dv[q] == vals[q + 1] && dc[q] == c[q + 1]);
                            }
                        }
                    }
                    lemma_coords_of_linear(dv, dc);
                    // the part of the kept extents seen so far
                    let upto = if i < axis {
                        i + 1
                    } else {
                        i as int
                    };
                    assert(dv =~= kept.take(upto));
                    lemma_product_prefix(kept, upto);
                    let rest = idx as int;
                    let d = input_shape[i as int] as int;
                    assert(rest * d >= 0) by (nonlinear_arith)
                        requires
                            rest >= 0,
                            d >= 0,
                    ;
                }
            }
            if i != axis {
                idx = idx * input_shape[i] + digits[i];
            }
            i += 1;
        }
        proof {
            assert(vals.take(rank as int) =~= vals);
            assert(c.take(rank as int) =~= c);
        }
        output_indices.push(idx);
        n += 1;
    }
    ReduceOpMetadata { output_indices, output_size }
}

} // verus!
