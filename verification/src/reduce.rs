//! The loop of the reductions: the elements along one axis, folded into one.

use crate::dim::DynMap;
use crate::elementwise::contents;
use crate::elementwise::model_of;
use crate::elementwise::reduce_inputs;
use crate::elementwise::reduce_outcome;
use crate::elementwise::reduce_source;
use crate::elementwise::resolve_input;
use crate::elementwise::OpError;
use crate::indexer::suffix;
use crate::kernel::folds;
use crate::kernel::gather;
use crate::kernel::lemma_folds_step;
use crate::kernel::total;
use crate::kernel::Arith;
use crate::kernel::BinaryKind;
use crate::kernel::UnaryKind;
use crate::layout::checked_product;
use crate::layout::count;
use crate::layout::lemma_product_skip;
use crate::layout::lemma_product_split;
use crate::layout::nats;
use crate::layout::sizes;
use crate::tensor::InputTensor;
use crate::tensor::Tensor;
use crate::tracker::ShapeError;
use crate::tracker::ShapeTracker;
use vstd::arithmetic::div_mod::lemma_multiply_divide_lt;
use vstd::prelude::*;

verus! {

/// The part of a list before position `to`.
pub fn prefix(v: &Vec<usize>, to: usize) -> (r: Vec<usize>)
    requires
        to <= v.len(),
    ensures
        r@ == v@.take(to as int),
{
    let mut out: Vec<usize> = Vec::new();
    let mut k: usize = 0;
    while k < to
        invariant
            k <= to <= v.len(),
            out.len() == k,
            forall|j: int| 0 <= j < k ==> out[j] == v[j],
        decreases to - k,
    {
        out.push(v[k]);
        k += 1;
    }
    assert(out@ =~= v@.take(to as int));
    out
}

/// An output position of a reduction splits into a position before the
/// reduced axis and one after it.
pub proof fn lemma_reduce_position(front: nat, back: nat, o: nat)
    requires
        o < front * back,
    ensures
        back > 0,
        o / back < front,
{
    assert(back > 0) by (nonlinear_arith)
        requires
            o < front * back,
    ;
    assert(o < back * front) by (nonlinear_arith)
        requires
            o < front * back,
    ;
    lemma_multiply_divide_lt(o as int, back as int, front as int);
}

/// The logical index that a step of a reduction reads lies inside the input.
pub proof fn lemma_reduce_source_bound(front: nat, dim: nat, back: nat, o: nat, q: nat)
    requires
        o < front * back,
        q < dim,
    ensures
        back > 0,
        o / back < front,
        o % back < back,
        reduce_source(dim, back, o, q) < front * dim * back,
        reduce_source(dim, back, o, q) == ((o / back) * dim + q) * back + o % back,
        (o / back) * dim + q < front * dim,
{
    assert(back > 0) by (nonlinear_arith)
        requires
            o < front * back,
    ;
    assert(o < back * front) by (nonlinear_arith)
        requires
            o < front * back,
    ;
    lemma_multiply_divide_lt(o as int, back as int, front as int);
    let i = o / back;
    let j = o % back;
    assert(j < back) by (nonlinear_arith)
        requires
            back > 0,
            j == o % back,
    ;
    assert(i * dim + q < front * dim) by (nonlinear_arith)
        requires
            i < front,
            q < dim,
    ;
    assert((i * dim + q) * back + j < front * dim * back) by (nonlinear_arith)
        requires
            i * dim + q < front * dim,
            j < back,
    ;
}

/// Folds the elements along `axis` of one input, valid positions only, with
/// the binary function of the given kind, starting each fold from `start`.
pub fn fold_axis<'a, T: Copy, U: Fn(UnaryKind, T) -> T, B: Fn(BinaryKind, T, T) -> T>(
    kind: BinaryKind,
    start: T,
    axis: usize,
    inp: Vec<(InputTensor<'a, T>, ShapeTracker)>,
    env: &DynMap,
    arith: &Arith<T, U, B>,
) -> (out: Result<Vec<Tensor<T>>, OpError>)
    requires
        total(*arith),
    ensures
        reduce_outcome(kind, start, axis, model_of(inp@), env@, *arith, contents(out)),
{
    if inp.len() != 1 {
        return Err(OpError::Arity);
    }
    let ix = match resolve_input(&inp, 0, env) {
        Ok(ix) => ix,
        Err(e) => {
            return Err(e);
        },
    };
    let shape = ix.shape();
    let ghost s = sizes(ix@.last().axes);
    assert(shape.len() == s.len()) by {
        assert(nats(shape@).len() == shape.len());
    }
    if axis >= shape.len() {
        return Err(OpError::Shape(ShapeError::AxisOutOfRange));
    }
    let head = prefix(&shape, axis);
    let tail = suffix(&shape, axis + 1);
    let dim: usize = shape[axis];
    proof {
        assert(nats(head@) =~= s.take(axis as int));
        assert(nats(tail@) =~= s.skip(axis + 1));
        assert(s[axis as int] == dim) by {
            assert(nats(shape@)[axis as int] == dim);
        }
    }
    let (front, back) = match (checked_product(head.as_slice()), checked_product(tail.as_slice())) {
        (Some(f), Some(b)) => (f, b),
        _ => {
            return Err(OpError::Shape(ShapeError::Overflow));
        },
    };
    let n: usize = match front.checked_mul(back) {
        Some(n) => n,
        None => {
            return Err(OpError::Shape(ShapeError::Overflow));
        },
    };
    proof {
        lemma_product_split(s, axis as int);
        lemma_product_skip(s, axis as int);
        let f = front as int;
        let d = dim as int;
        let b = back as int;
        assert(f * (d * b) == f * d * b) by (nonlinear_arith);
        assert(count(ix@.last().axes) == front * dim * back);
        assert(ix.layers[ix.layers.len() - 1].wf());
        assert(ix@.last() == ix.layers[ix.layers.len() - 1]@);
        assert(front * dim * back <= usize::MAX);
    }
    let src = inp[0].0.borrowed();
    let mut res: Vec<T> = Vec::new();
    let mut o: usize = 0;
    while o < n
        invariant
            o <= n,
            ix.wf(),
            total(*arith),
            n == front * back,
            count(ix@.last().axes) == front * dim * back,
            front * dim * back <= usize::MAX,
            res.len() == o,
            forall|p: int|
                0 <= p < o ==> folds(
                    arith.binary,
                    kind,
                    start,
                    reduce_inputs(src.data@, ix@, dim as nat, back as nat, p as nat),
                    #[trigger] res[p],
                ),
        decreases n - o,
    {
        proof {
            lemma_reduce_position(front as nat, back as nat, o as nat);
        }
        let i: usize = o / back;
        let j: usize = o % back;
        let ghost xs = reduce_inputs(src.data@, ix@, dim as nat, back as nat, o as nat);
        let mut acc: T = start;
        let mut q: usize = 0;
        assert(xs.take(0) =~= Seq::<Option<T>>::empty());
        while q < dim
            invariant
                q <= dim,
                ix.wf(),
                total(*arith),
                o < front * back,
                i == o / back,
                j == o % back,
                count(ix@.last().axes) == front * dim * back,
                front * dim * back <= usize::MAX,
                xs == reduce_inputs(src.data@, ix@, dim as nat, back as nat, o as nat),
                folds(arith.binary, kind, start, xs.take(q as int), acc),
            decreases dim - q,
        {
            proof {
                lemma_reduce_source_bound(front as nat, dim as nat, back as nat, o as nat, q as nat);
                let a = i * dim + q;
                let b = back as int;
                let fd = front * dim;
                assert(a < fd);
                assert(fd <= fd * b) by (nonlinear_arith)
                    requires
                        b >= 1,
                        fd >= 0,
                ;
                assert(i * dim >= 0) by (nonlinear_arith)
                    requires
                        i >= 0,
                        dim >= 0,
                ;
                assert(a * b >= 0) by (nonlinear_arith)
                    requires
                        a >= 0,
                        b >= 0,
                ;
            }
            let at: usize = (i * dim + q) * back + j;
            let ghost before = acc;
            match gather(&src.data, &ix, at) {
                Some(x) => {
                    acc = (arith.binary)(kind, acc, x);
                },
                None => {},
            }
            proof {
                assert(xs[q as int] == crate::kernel::read(src.data@, ix@, at as nat));
                lemma_folds_step(arith.binary, kind, start, xs, q as int, before, acc);
            }
            q += 1;
        }
        assert(xs.take(dim as int) =~= xs);
        res.push(acc);
        o += 1;
    }
    let out = vec![Tensor { data: res }];
    assert(out@.map_values(|t: Tensor<T>| t.data@)[0] == res@);
    Ok(out)
}

} // verus!
