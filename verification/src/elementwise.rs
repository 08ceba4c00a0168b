//! What the primitive operators compute, and the loops that compute it: the
//! reading of logical elements through an indexer, combined by the scalar
//! functions of the caller's arithmetic.

use crate::broadcast::aligned;
use crate::broadcast::broadcast_spec;
use crate::broadcast::longer;
use crate::broadcast::source_index;
use crate::dim::DynMap;
use crate::indexer::resolve_outcome;
use crate::indexer::Indexer;
use crate::kernel::folds;
use crate::kernel::gather_or;
use crate::kernel::read;
use crate::kernel::read_or;
use crate::kernel::total;
use crate::kernel::Arith;
use crate::kernel::BinaryKind;
use crate::kernel::UnaryKind;
use crate::layout::count;
use crate::layout::nats;
use crate::layout::product;
use crate::layout::sizes;
use crate::layout::Plane;
use crate::tensor::InputTensor;
use crate::tensor::Tensor;
use crate::tracker::LayerSpec;
use crate::tracker::ShapeError;
use crate::tracker::ShapeTracker;
use vstd::prelude::*;

verus! {

/// Why an operator produced no output.
#[derive(Clone, Copy, Debug, PartialEq, Eq, Structural)]
pub enum OpError {
    /// The operator was given the wrong number of inputs.
    Arity,
    /// A shape could not be resolved, or does not suit the operator.
    Shape(ShapeError),
}

/// The content of an operator's inputs: for each, the elements of the buffer
/// and the tracker through which they are read.
pub open spec fn model_of<'a, T>(inp: Seq<(InputTensor<'a, T>, ShapeTracker)>) -> Seq<
    (Seq<T>, Seq<LayerSpec>),
> {
    inp.map_values(|p: (InputTensor<'a, T>, ShapeTracker)| (p.0.elements(), p.1@))
}

/// The content of an operator's output.
pub open spec fn contents<T>(out: Result<Vec<Tensor<T>>, OpError>) -> Result<
    Seq<Seq<T>>,
    OpError,
> {
    match out {
        Ok(v) => Ok(v@.map_values(|t: Tensor<T>| t.data@)),
        Err(e) => Err(e),
    }
}

/// A sequence of extents as machine words.
pub open spec fn words(s: Seq<nat>) -> Seq<usize> {
    s.map_values(|x: nat| x as usize)
}

/// The logical shape of a resolved tracker.
pub open spec fn top_shape(planes: Seq<Plane>) -> Seq<usize> {
    words(sizes(planes.last().axes))
}

/// The dense buffer of a view: element `i` is what logical index `i` reads,
/// and `zero` where the index is invalid.
pub open spec fn dense_read<T>(data: Seq<T>, planes: Seq<Plane>, zero: T) -> Seq<T> {
    Seq::new(count(planes.last().axes), |i: int| read_or(data, planes, i as nat, zero))
}

/// What a contiguous copy of one input is.
pub open spec fn contiguous_outcome<T>(
    inp: Seq<(Seq<T>, Seq<LayerSpec>)>,
    env: Map<char, usize>,
    zero: T,
    out: Result<Seq<Seq<T>>, OpError>,
) -> bool {
    if inp.len() != 1 {
        out == Err::<Seq<Seq<T>>, OpError>(OpError::Arity)
    } else {
        match resolve_outcome(inp[0].1, env) {
            Err(e) => out == Err::<Seq<Seq<T>>, OpError>(OpError::Shape(e)),
            Ok(planes) => out == Ok::<Seq<Seq<T>>, OpError>(
                seq![dense_read(inp[0].0, planes, zero)],
            ),
        }
    }
}

/// What a unary operator of the given kind yields: one output, with one
/// element for every logical position of the input, each a result of the
/// scalar function on the element that the position reads.
pub open spec fn unary_outcome<T, U: Fn(UnaryKind, T) -> T, B>(
    kind: UnaryKind,
    inp: Seq<(Seq<T>, Seq<LayerSpec>)>,
    env: Map<char, usize>,
    arith: Arith<T, U, B>,
    out: Result<Seq<Seq<T>>, OpError>,
) -> bool {
    if inp.len() != 1 {
        out == Err::<Seq<Seq<T>>, OpError>(OpError::Arity)
    } else {
        match resolve_outcome(inp[0].1, env) {
            Err(e) => out == Err::<Seq<Seq<T>>, OpError>(OpError::Shape(e)),
            Ok(planes) => {
                &&& out is Ok
                &&& out->Ok_0.len() == 1
                &&& out->Ok_0[0].len() == count(planes.last().axes)
                &&& forall|i: int|
                    0 <= i < out->Ok_0[0].len() ==> call_ensures(
                        arith.unary,
                        (kind, read_or(inp[0].0, planes, i as nat, arith.zero)),
                        #[trigger] out->Ok_0[0][i],
                    )
            },
        }
    }
}

/// Whether two aligned extents can be broadcast against each other: they are
/// equal, or one of them is one.
pub open spec fn axis_compatible(a: Seq<usize>, b: Seq<usize>, k: int) -> bool {
    let n = longer(a.len() as int, b.len() as int);
    aligned(a, n, k) == aligned(b, n, k) || aligned(a, n, k) == 1 || aligned(b, n, k) == 1
}

/// Whether two shapes can be broadcast against each other.
pub open spec fn compatible(a: Seq<usize>, b: Seq<usize>) -> bool {
    forall|k: int|
        0 <= k < longer(a.len() as int, b.len() as int) ==> #[trigger] axis_compatible(a, b, k)
}

/// The element of an operand that position `n` of a broadcast result reads;
/// an operand without elements reads as `zero` everywhere.
pub open spec fn operand<T>(
    data: Seq<T>,
    planes: Seq<Plane>,
    target: Seq<usize>,
    n: nat,
    zero: T,
) -> T {
    if count(planes.last().axes) == 0 {
        zero
    } else {
        read_or(data, planes, source_index(top_shape(planes), target, n), zero)
    }
}

/// What a binary operator of the given kind yields: one output over the
/// broadcast of the two logical shapes, each element a result of the scalar
/// function on the two elements that the position reads.
pub open spec fn binary_outcome<T, U, B: Fn(BinaryKind, T, T) -> T>(
    kind: BinaryKind,
    inp: Seq<(Seq<T>, Seq<LayerSpec>)>,
    env: Map<char, usize>,
    arith: Arith<T, U, B>,
    out: Result<Seq<Seq<T>>, OpError>,
) -> bool {
    if inp.len() != 2 {
        out == Err::<Seq<Seq<T>>, OpError>(OpError::Arity)
    } else {
        match (resolve_outcome(inp[0].1, env), resolve_outcome(inp[1].1, env)) {
            (Err(e), _) => out == Err::<Seq<Seq<T>>, OpError>(OpError::Shape(e)),
            (Ok(_), Err(e)) => out == Err::<Seq<Seq<T>>, OpError>(OpError::Shape(e)),
            (Ok(pa), Ok(pb)) => {
                let target = broadcast_spec(top_shape(pa), top_shape(pb));
                if !compatible(top_shape(pa), top_shape(pb)) {
                    out == Err::<Seq<Seq<T>>, OpError>(
                        OpError::Shape(ShapeError::BroadcastMismatch),
                    )
                } else if product(nats(target)) > usize::MAX {
                    out == Err::<Seq<Seq<T>>, OpError>(OpError::Shape(ShapeError::Overflow))
                } else {
                    &&& out is Ok
                    &&& out->Ok_0.len() == 1
                    &&& out->Ok_0[0].len() == product(nats(target))
                    &&& forall|n: int|
                        0 <= n < out->Ok_0[0].len() ==> call_ensures(
                            arith.binary,
                            (
                                kind,
                                operand(inp[0].0, pa, target, n as nat, arith.zero),
                                operand(inp[1].0, pb, target, n as nat, arith.zero),
                            ),
                            #[trigger] out->Ok_0[0][n],
                        )
                }
            },
        }
    }
}

/// The logical index that step `q` of the reduction for output position `o`
/// reads, in an input whose reduced axis has extent `dim` and whose axes
/// after it have `back` positions together.
pub open spec fn reduce_source(dim: nat, back: nat, o: nat, q: nat) -> nat {
    if back == 0 {
        0
    } else {
        ((o / back) * dim + q) * back + o % back
    }
}

/// The elements that the reduction for output position `o` folds, in order.
pub open spec fn reduce_inputs<T>(
    data: Seq<T>,
    planes: Seq<Plane>,
    dim: nat,
    back: nat,
    o: nat,
) -> Seq<Option<T>> {
    Seq::new(dim, |q: int| read(data, planes, reduce_source(dim, back, o, q as nat)))
}

/// What a reduction along `axis` yields: one output, with the logical shape
/// of the input without that axis, each element a fold of the elements
/// along the axis, valid positions only, from `start`.
pub open spec fn reduce_outcome<T, U, B: Fn(BinaryKind, T, T) -> T>(
    kind: BinaryKind,
    start: T,
    axis: usize,
    inp: Seq<(Seq<T>, Seq<LayerSpec>)>,
    env: Map<char, usize>,
    arith: Arith<T, U, B>,
    out: Result<Seq<Seq<T>>, OpError>,
) -> bool {
    if inp.len() != 1 {
        out == Err::<Seq<Seq<T>>, OpError>(OpError::Arity)
    } else {
        match resolve_outcome(inp[0].1, env) {
            Err(e) => out == Err::<Seq<Seq<T>>, OpError>(OpError::Shape(e)),
            Ok(planes) => {
                let shape = sizes(planes.last().axes);
                if axis >= shape.len() {
                    out == Err::<Seq<Seq<T>>, OpError>(
                        OpError::Shape(ShapeError::AxisOutOfRange),
                    )
                } else {
                    let front = product(shape.take(axis as int));
                    let back = product(shape.skip(axis + 1));
                    let dim = shape[axis as int];
                    if front > usize::MAX || back > usize::MAX || front * back > usize::MAX {
                        out == Err::<Seq<Seq<T>>, OpError>(OpError::Shape(ShapeError::Overflow))
                    } else {
                        &&& out is Ok
                        &&& out->Ok_0.len() == 1
                        &&& out->Ok_0[0].len() == front * back
                        &&& forall|o: int|
                            0 <= o < out->Ok_0[0].len() ==> folds(
                                arith.binary,
                                kind,
                                start,
                                reduce_inputs(inp[0].0, planes, dim, back, o as nat),
                                #[trigger] out->Ok_0[0][o],
                            )
                    }
                }
            },
        }
    }
}

/// Resolves the tracker of input `k`.
pub fn resolve_input<'a, T>(
    inp: &Vec<(InputTensor<'a, T>, ShapeTracker)>,
    k: usize,
    env: &DynMap,
) -> (r: Result<Indexer, OpError>)
    requires
        k < inp.len(),
    ensures
        match r {
            Ok(ix) => ix.wf() && resolve_outcome(model_of(inp@)[k as int].1, env@) == Ok::<
                Seq<Plane>,
                ShapeError,
            >(ix@),
            Err(e) => exists|s: ShapeError|
                e == OpError::Shape(s) && resolve_outcome(model_of(inp@)[k as int].1, env@)
                    == Err::<Seq<Plane>, ShapeError>(s),
        },
{
    match inp[k].1.indexer(env) {
        Ok(ix) => Ok(ix),
        Err(s) => Err(OpError::Shape(s)),
    }
}

/// Copies the logical elements of one input into a dense buffer.
pub fn make_contiguous<'a, T: Copy>(
    inp: Vec<(InputTensor<'a, T>, ShapeTracker)>,
    env: &DynMap,
    zero: T,
) -> (out: Result<Vec<Tensor<T>>, OpError>)
    ensures
        contiguous_outcome(model_of(inp@), env@, zero, contents(out)),
{
    if inp.len() != 1 {
        return Err(OpError::Arity);
    }
    let ix = match resolve_input(&inp, 0, env) {
        Ok(ix) => ix,
        Err(e) => {
            return Err(e);
        },
    };
    let src = inp[0].0.borrowed();
    let n: usize = ix.n_elements();
    let ghost want = dense_read(src.data@, ix@, zero);
    let mut res: Vec<T> = Vec::new();
    let mut i: usize = 0;
    while i < n
        invariant
            i <= n,
            ix.wf(),
            n == count(ix@.last().axes),
            want == dense_read(src.data@, ix@, zero),
            res.len() == i,
            forall|j: int| 0 <= j < i ==> res[j] == want[j],
        decreases n - i,
    {
        res.push(gather_or(&src.data, &ix, i, zero));
        i += 1;
    }
    assert(res@ =~= want);
    let out = vec![Tensor { data: res }];
    assert(out@.map_values(|t: Tensor<T>| t.data@) =~= seq![want]);
    Ok(out)
}

/// Applies a scalar function of one argument to every logical element of
/// one input.
pub fn map_unary<'a, T: Copy, U: Fn(UnaryKind, T) -> T, B: Fn(BinaryKind, T, T) -> T>(
    kind: UnaryKind,
    inp: Vec<(InputTensor<'a, T>, ShapeTracker)>,
    env: &DynMap,
    arith: &Arith<T, U, B>,
) -> (out: Result<Vec<Tensor<T>>, OpError>)
    requires
        total(*arith),
    ensures
        unary_outcome(kind, model_of(inp@), env@, *arith, contents(out)),
{
    if inp.len() != 1 {
        return Err(OpError::Arity);
    }
    let ix = match resolve_input(&inp, 0, env) {
        Ok(ix) => ix,
        Err(e) => {
            return Err(e);
        },
    };
    let src = inp[0].0.borrowed();
    let n: usize = ix.n_elements();
    let mut res: Vec<T> = Vec::new();
    let mut i: usize = 0;
    while i < n
        invariant
            i <= n,
            ix.wf(),
            total(*arith),
            n == count(ix@.last().axes),
            res.len() == i,
            forall|j: int|
                0 <= j < i ==> call_ensures(
                    arith.unary,
                    (kind, read_or(src.data@, ix@, j as nat, arith.zero)),
                    #[trigger] res[j],
                ),
        decreases n - i,
    {
        let x = gather_or(&src.data, &ix, i, arith.zero);
        let y = (arith.unary)(kind, x);
        res.push(y);
        i += 1;
    }
    let out = vec![Tensor { data: res }];
    assert(out@.map_values(|t: Tensor<T>| t.data@)[0] == res@);
    Ok(out)
}

} // verus!
