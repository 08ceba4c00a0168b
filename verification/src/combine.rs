//! The loop of the binary operators: two operands, read at the positions
//! that broadcasting assigns to each position of the result.

use crate::broadcast::broadcast_with;
use crate::broadcast::compute_indices;
use crate::broadcast::longer;
use crate::dim::DynMap;
use crate::elementwise::axis_compatible;
use crate::elementwise::binary_outcome;
use crate::elementwise::compatible;
use crate::elementwise::contents;
use crate::elementwise::model_of;
use crate::elementwise::operand;
use crate::elementwise::resolve_input;
use crate::elementwise::top_shape;
use crate::elementwise::OpError;
use crate::indexer::Indexer;
use crate::kernel::gather_or;
use crate::kernel::total;
use crate::kernel::Arith;
use crate::kernel::BinaryKind;
use crate::kernel::UnaryKind;
use crate::layout::checked_product;
use crate::layout::count;
use crate::layout::lemma_product_positive;
use crate::layout::nats;
use crate::layout::product;
use crate::layout::sizes;
use crate::tensor::InputTensor;
use crate::tensor::Tensor;
use crate::tracker::ShapeError;
use crate::tracker::ShapeTracker;
use vstd::prelude::*;

verus! {

/// Whether two shapes can be broadcast against each other.
pub fn shapes_compatible(a: &[usize], b: &[usize]) -> (r: bool)
    ensures
        r == compatible(a@, b@),
{
    let na: usize = a.len();
    let nb: usize = b.len();
    let n: usize = if na >= nb { na } else { nb };
    let mut k: usize = 0;
    while k < n
        invariant
            k <= n,
            na == a.len(),
            nb == b.len(),
            n == longer(na as int, nb as int),
            forall|j: int| 0 <= j < k ==> #[trigger] axis_compatible(a@, b@, j),
        decreases n - k,
    {
        let x: usize = if k >= n - na { a[k - (n - na)] } else { 1 };
        let y: usize = if k >= n - nb { b[k - (n - nb)] } else { 1 };
        if x != y && x != 1 && y != 1 {
            assert(!axis_compatible(a@, b@, k as int));
            return false;
        }
        k += 1;
    }
    true
}

/// The table of the positions that an operand is read at, one for every
/// position of the result; none for an operand without elements.
pub fn operand_table(ix: &Indexer, target: &Vec<usize>) -> (r: Option<Vec<usize>>)
    requires
        ix.wf(),
        ix@.last().axes.len() <= target.len(),
        product(nats(target@)) <= usize::MAX,
    ensures
        match r {
            None => count(ix@.last().axes) == 0,
            Some(t) => {
                &&& count(ix@.last().axes) > 0
                &&& t.len() == product(nats(target@))
                &&& forall|n: int|
                    0 <= n < t.len() ==> t[n] as nat == crate::broadcast::source_index(
                        top_shape(ix@),
                        target@,
                        n as nat,
                    )
            },
        },
{
    if ix.n_elements() == 0 {
        return None;
    }
    let shape = ix.shape();
    proof {
        assert(shape@ =~= top_shape(ix@)) by {
            assert(nats(shape@) == sizes(ix@.last().axes));
            assert forall|k: int| 0 <= k < shape.len() implies shape[k] == top_shape(ix@)[k] by {
                assert(nats(shape@)[k] == shape[k]);
            }
        }
        lemma_product_positive(nats(shape@));
        assert forall|i: int| 0 <= i < shape.len() implies shape[i] > 0 by {
            assert(nats(shape@)[i] == shape[i]);
        }
    }
    Some(compute_indices(shape.as_slice(), target.as_slice()))
}

/// Applies a scalar function of two arguments to the elements of two inputs,
/// broadcast against each other.
pub fn zip_binary<'a, T: Copy, U: Fn(UnaryKind, T) -> T, B: Fn(BinaryKind, T, T) -> T>(
    kind: BinaryKind,
    inp: Vec<(InputTensor<'a, T>, ShapeTracker)>,
    env: &DynMap,
    arith: &Arith<T, U, B>,
) -> (out: Result<Vec<Tensor<T>>, OpError>)
    requires
        total(*arith),
    ensures
        binary_outcome(kind, model_of(inp@), env@, *arith, contents(out)),
{
    if inp.len() != 2 {
        return Err(OpError::Arity);
    }
    let ixa = match resolve_input(&inp, 0, env) {
        Ok(ix) => ix,
        Err(e) => {
            return Err(e);
        },
    };
    let ixb = match resolve_input(&inp, 1, env) {
        Ok(ix) => ix,
        Err(e) => {
            return Err(e);
        },
    };
    let sa = ixa.shape();
    let sb = ixb.shape();
    proof {
        assert(sa@ =~= top_shape(ixa@)) by {
            assert forall|k: int| 0 <= k < sa.len() implies sa[k] == top_shape(ixa@)[k] by {
                assert(nats(sa@)[k] == sa[k]);
            }
        }
        assert(sb@ =~= top_shape(ixb@)) by {
            assert forall|k: int| 0 <= k < sb.len() implies sb[k] == top_shape(ixb@)[k] by {
                assert(nats(sb@)[k] == sb[k]);
            }
        }
    }
    if !shapes_compatible(sa.as_slice(), sb.as_slice()) {
        return Err(OpError::Shape(ShapeError::BroadcastMismatch));
    }
    let target = broadcast_with(sa.as_slice(), sb.as_slice());
    let n: usize = match checked_product(target.as_slice()) {
        Some(n) => n,
        None => {
            return Err(OpError::Shape(ShapeError::Overflow));
        },
    };
    let ta = operand_table(&ixa, &target);
    let tb = operand_table(&ixb, &target);
    let a = inp[0].0.borrowed();
    let b = inp[1].0.borrowed();
    let mut res: Vec<T> = Vec::new();
    let mut i: usize = 0;
    while i < n
        invariant
            i <= n,
            ixa.wf(),
            ixb.wf(),
            total(*arith),
            n == product(nats(target@)),
            match ta {
                None => count(ixa@.last().axes) == 0,
                Some(t) => {
                    &&& count(ixa@.last().axes) > 0
                    &&& t.len() == n
                    &&& forall|q: int|
                        0 <= q < t.len() ==> t[q] as nat == crate::broadcast::source_index(
                            top_shape(ixa@),
                            target@,
                            q as nat,
                        )
                },
            },
            match tb {
                None => count(ixb@.last().axes) == 0,
                Some(t) => {
                    &&& count(ixb@.last().axes) > 0
                    &&& t.len() == n
                    &&& forall|q: int|
                        0 <= q < t.len() ==> t[q] as nat == crate::broadcast::source_index(
                            top_shape(ixb@),
                            target@,
                            q as nat,
                        )
                },
            },
            res.len() == i,
            forall|j: int|
                0 <= j < i ==> call_ensures(
                    arith.binary,
                    (
                        kind,
                        operand(a.data@, ixa@, target@, j as nat, arith.zero),
                        operand(b.data@, ixb@, target@, j as nat, arith.zero),
                    ),
                    #[trigger] res[j],
                ),
        decreases n - i,
    {
        let x = match &ta {
            Some(t) => gather_or(&a.data, &ixa, t[i], arith.zero),
            None => arith.zero,
        };
        let y = match &tb {
            Some(t) => gather_or(&b.data, &ixb, t[i], arith.zero),
            None => arith.zero,
        };
        let z = (arith.binary)(kind, x, y);
        res.push(z);
        i += 1;
    }
    let out = vec![Tensor { data: res }];
    assert(out@.map_values(|t: Tensor<T>| t.data@)[0] == res@);
    Ok(out)
}

} // verus!
