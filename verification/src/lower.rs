//! What a lowering pass does with a node: the operator that takes its place
//! and runs outside the library, with the program that computes it and the
//! index tables that the program needs.

use crate::broadcast::broadcast_spec;
use crate::broadcast::broadcast_with;
use crate::broadcast::source_index;
use crate::combine::operand_table;
use crate::combine::shapes_compatible;
use crate::elementwise::compatible;
use crate::elementwise::top_shape;
use crate::graph::BinaryOpMetadata;
use crate::graph::Delegate;
use crate::graph::NodeIndex;
use crate::graph::Op;
use crate::graph::OpCategory;
use crate::graph::ReduceOpMetadata;
use crate::indexer::resolve_outcome;
use crate::kernel::BinaryKind;
use crate::kernel::UnaryKind;
use crate::layout::checked_product;
use crate::layout::count;
use crate::layout::nats;
use crate::layout::product;
use crate::layout::Plane;
use crate::precomputing::drop_axis;
use crate::precomputing::precompute_reduce_op_metadata;
use crate::precomputing::reduce_target;
use crate::tracker::ShapeError;
use crate::tracker::ShapeTracker;
use vstd::prelude::*;

verus! {

/// Why a pass gave up.
#[derive(Clone, Copy, Debug, PartialEq, Eq, Structural)]
pub enum CompileError {
    /// The operator of this node has the wrong number of inputs.
    UnsupportedOperation(NodeIndex),
    /// A shape that this node reads could not be resolved, or does not suit
    /// its operator.
    Shape(NodeIndex, ShapeError),
}

/// What a pass does with a node that it handles.
#[derive(Debug)]
pub enum Action<T> {
    /// The node is a constant: it is given its result ahead of time.
    Fold(T),
    /// The node is replaced by a node with this operator.
    Replace(Op<T>),
}

/// The name of the program that computes a unary operator.
pub open spec fn unary_program(k: UnaryKind) -> Seq<char> {
    match k {
        UnaryKind::Log2 => "log2.sierra.json"@,
        UnaryKind::Exp2 => "exp2.sierra.json"@,
        UnaryKind::Sin => "sin.sierra.json"@,
        UnaryKind::Sqrt => "sqrt.sierra.json"@,
        UnaryKind::Recip => "recip.sierra.json"@,
    }
}

/// The name of the program that computes a binary operator, if there is
/// one.
pub open spec fn binary_program(k: BinaryKind) -> Option<Seq<char>> {
    match k {
        BinaryKind::Add => Some("add.sierra.json"@),
        BinaryKind::Mul => Some("mul.sierra.json"@),
        BinaryKind::Mod => Some("rem.sierra.json"@),
        BinaryKind::LessThan => Some("lt.sierra.json"@),
        BinaryKind::Max => None,
    }
}

/// The name of the program that computes a reduction: one for an input of
/// one axis, another for an input of more.
pub open spec fn reduce_program(max: bool, rank: nat) -> Seq<char> {
    if max {
        if rank == 1 {
            "max_reduce_1d.sierra.json"@
        } else {
            "max_reduce_nd.sierra.json"@
        }
    } else {
        if rank == 1 {
            "sum_reduce_1d.sierra.json"@
        } else {
            "sum_reduce_nd.sierra.json"@
        }
    }
}

/// The name of the program that computes a unary operator.
pub fn unary_program_name(k: UnaryKind) -> (r: String)
    ensures
        r@ == unary_program(k),
{
    match k {
        UnaryKind::Log2 => "log2.sierra.json".to_owned(),
        UnaryKind::Exp2 => "exp2.sierra.json".to_owned(),
        UnaryKind::Sin => "sin.sierra.json".to_owned(),
        UnaryKind::Sqrt => "sqrt.sierra.json".to_owned(),
        UnaryKind::Recip => "recip.sierra.json".to_owned(),
    }
}

/// The name of the program that computes a binary operator, if there is
/// one.
pub fn binary_program_name(k: BinaryKind) -> (r: Option<String>)
    ensures
        match r {
            Some(s) => binary_program(k) == Some(s@),
            None => binary_program(k) is None,
        },
{
    match k {
        BinaryKind::Add => Some("add.sierra.json".to_owned()),
        BinaryKind::Mul => Some("mul.sierra.json".to_owned()),
        BinaryKind::Mod => Some("rem.sierra.json".to_owned()),
        BinaryKind::LessThan => Some("lt.sierra.json".to_owned()),
        BinaryKind::Max => None,
    }
}

/// The name of the program that computes a reduction.
pub fn reduce_program_name(max: bool, rank: usize) -> (r: String)
    ensures
        r@ == reduce_program(max, rank as nat),
{
    if max {
        if rank == 1 {
            "max_reduce_1d.sierra.json".to_owned()
        } else {
            "max_reduce_nd.sierra.json".to_owned()
        }
    } else {
        if rank == 1 {
            "sum_reduce_1d.sierra.json".to_owned()
        } else {
            "sum_reduce_nd.sierra.json".to_owned()
        }
    }
}

/// Whether the tables are those of a binary operation on operands that
/// resolve to `pa` and `pb`: one entry for every position of the broadcast
/// result, the index that the position reads in each operand.
pub open spec fn binary_tables(meta: BinaryOpMetadata, pa: Seq<Plane>, pb: Seq<Plane>) -> bool {
    let target = broadcast_spec(top_shape(pa), top_shape(pb));
    &&& meta.lhs_indices.len() == product(nats(target))
    &&& meta.rhs_indices.len() == product(nats(target))
    &&& forall|n: int|
        0 <= n < meta.lhs_indices.len() ==> meta.lhs_indices[n] as nat == source_index(
            top_shape(pa),
            target,
            n as nat,
        )
    &&& forall|n: int|
        0 <= n < meta.rhs_indices.len() ==> meta.rhs_indices[n] as nat == source_index(
            top_shape(pb),
            target,
            n as nat,
        )
}

/// Whether the table is that of a reduction along `axis` of an input of the
/// given shape.
pub open spec fn reduce_table(meta: ReduceOpMetadata, shape: Seq<usize>, axis: int) -> bool {
    &&& meta.output_size == product(drop_axis(nats(shape), axis))
    &&& meta.output_indices.len() == product(nats(shape))
    &&& forall|n: int|
        0 <= n < meta.output_indices.len() ==> meta.output_indices[n] as nat == reduce_target(
            shape,
            axis,
            n as nat,
        )
}

/// What the lowering of a binary operator with the program `name`, on
/// operands read through the two trackers, gives: the operator that takes
/// its place, or the reason why there is none.
pub open spec fn binary_lowering<T>(
    name: Seq<char>,
    a: Seq<crate::tracker::LayerSpec>,
    b: Seq<crate::tracker::LayerSpec>,
    env: Map<char, usize>,
    r: Result<Op<T>, ShapeError>,
) -> bool {
    match (resolve_outcome(a, env), resolve_outcome(b, env)) {
        (Err(e), _) => r == Err::<Op<T>, ShapeError>(e),
        (Ok(_), Err(e)) => r == Err::<Op<T>, ShapeError>(e),
        (Ok(pa), Ok(pb)) => {
            let target = broadcast_spec(top_shape(pa), top_shape(pb));
            if !compatible(top_shape(pa), top_shape(pb)) {
                r == Err::<Op<T>, ShapeError>(ShapeError::BroadcastMismatch)
            } else if product(nats(target)) > usize::MAX {
                r == Err::<Op<T>, ShapeError>(ShapeError::Overflow)
            } else if count(pa.last().axes) == 0 || count(pb.last().axes) == 0 {
                r == Err::<Op<T>, ShapeError>(ShapeError::BroadcastMismatch)
            } else {
                &&& r is Ok
                &&& r->Ok_0 is Delegated
                &&& r->Ok_0->Delegated_0.program@ == name
                &&& r->Ok_0->Delegated_0.category is Binary
                &&& binary_tables(r->Ok_0->Delegated_0.category->Binary_0, pa, pb)
            }
        },
    }
}

/// What the lowering of a reduction along `axis`, of an input read through
/// the tracker, gives.
pub open spec fn reduce_lowering<T>(
    max: bool,
    axis: usize,
    a: Seq<crate::tracker::LayerSpec>,
    env: Map<char, usize>,
    r: Result<Op<T>, ShapeError>,
) -> bool {
    match resolve_outcome(a, env) {
        Err(e) => r == Err::<Op<T>, ShapeError>(e),
        Ok(pa) => {
            let shape = top_shape(pa);
            if axis >= shape.len() {
                r == Err::<Op<T>, ShapeError>(ShapeError::AxisOutOfRange)
            } else if shape.len() > 1 && product(drop_axis(nats(shape), axis as int))
                > usize::MAX {
                r == Err::<Op<T>, ShapeError>(ShapeError::Overflow)
            } else {
                &&& r is Ok
                &&& r->Ok_0 is Delegated
                &&& r->Ok_0->Delegated_0.program@ == reduce_program(max, shape.len())
                &&& r->Ok_0->Delegated_0.category is Reduce
                &&& match r->Ok_0->Delegated_0.category->Reduce_0 {
                    None => shape.len() == 1,
                    Some(meta) => shape.len() > 1 && reduce_table(meta, shape, axis as int),
                }
            }
        },
    }
}

/// The operator that takes the place of a binary operator with the program
/// `name`, on operands read through the two trackers.
pub fn lower_binary<T>(
    name: String,
    a: &ShapeTracker,
    b: &ShapeTracker,
    env: &crate::dim::DynMap,
) -> (r: Result<Op<T>, ShapeError>)
    ensures
        binary_lowering(name@, a@, b@, env@, r),
{
    let ixa = match a.indexer(env) {
        Ok(ix) => ix,
        Err(e) => {
            return Err(e);
        },
    };
    let ixb = match b.indexer(env) {
        Ok(ix) => ix,
        Err(e) => {
            return Err(e);
        },
    };
    let sa = ixa.shape();
    let sb = ixb.shape();
    proof {
        assert(sa@ =~= top_shape(ixa@)) by {
            assert forall|i: int| 0 <= i < sa.len() implies sa[i] == top_shape(ixa@)[i] by {
                assert(nats(sa@)[i] == sa[i]);
            }
        }
        assert(sb@ =~= top_shape(ixb@)) by {
            assert forall|i: int| 0 <= i < sb.len() implies sb[i] == top_shape(ixb@)[i] by {
                assert(nats(sb@)[i] == sb[i]);
            }
        }
    }
    if !shapes_compatible(sa.as_slice(), sb.as_slice()) {
        return Err(ShapeError::BroadcastMismatch);
    }
    let target = broadcast_with(sa.as_slice(), sb.as_slice());
    if checked_product(target.as_slice()).is_none() {
        return Err(ShapeError::Overflow);
    }
    match (operand_table(&ixa, &target), operand_table(&ixb, &target)) {
        (Some(lhs_indices), Some(rhs_indices)) => Ok(
            Op::Delegated(
                Delegate {
                    program: name,
                    category: OpCategory::Binary(BinaryOpMetadata { lhs_indices, rhs_indices }),
                },
            ),
        ),
        _ => Err(ShapeError::BroadcastMismatch),
    }
}

/// The operator that takes the place of a reduction along `axis`, of an
/// input read through the tracker.
pub fn lower_reduce<T>(max: bool, axis: usize, a: &ShapeTracker, env: &crate::dim::DynMap) -> (r:
    Result<Op<T>, ShapeError>)
    ensures
        reduce_lowering(max, axis, a@, env@, r),
{
    let ix = match a.indexer(env) {
        Ok(ix) => ix,
        Err(e) => {
            return Err(e);
        },
    };
    let shape = ix.shape();
    proof {
        assert(shape@ =~= top_shape(ix@)) by {
            assert forall|i: int| 0 <= i < shape.len() implies shape[i] == top_shape(ix@)[i] by {
                assert(nats(shape@)[i] == shape[i]);
            }
        }
        assert(ix.layers[ix.layers.len() - 1].wf());
        assert(ix@.last() == ix.layers[ix.layers.len() - 1]@);
        assert(product(nats(shape@)) <= usize::MAX);
    }
    if axis >= shape.len() {
        return Err(ShapeError::AxisOutOfRange);
    }
    let program = reduce_program_name(max, shape.len());
    if shape.len() == 1 {
        return Ok(Op::Delegated(Delegate { program, category: OpCategory::Reduce(None) }));
    }
    let mut others: Vec<usize> = Vec::new();
    let mut k: usize = 0;
    while k < shape.len()
        invariant
            k <= shape.len(),
            axis < shape.len(),
            others@ == drop_axis(shape@.take(k as int), axis as int),
        decreases shape.len() - k,
    {
        proof {
            let next = shape@.take(k + 1);
            let now = shape@.take(k as int);
            if k == axis {
                assert(next.remove(axis as int) =~= now);
            } else if k < axis {
                assert(next =~= now.push(shape[k as int]));
            } else {
                assert(next.remove(axis as int) =~= now.remove(axis as int).push(
                    shape[k as int],
                ));
            }
        }
        if k != axis {
            others.push(shape[k]);
        }
        k += 1;
    }
    proof {
        assert(shape@.take(shape.len() as int) =~= shape@);
        assert(nats(others@) =~= drop_axis(nats(shape@), axis as int));
    }
    if checked_product(others.as_slice()).is_none() {
        return Err(ShapeError::Overflow);
    }
    let meta = precompute_reduce_op_metadata(shape.as_slice(), axis);
    Ok(Op::Delegated(Delegate { program, category: OpCategory::Reduce(Some(meta)) }))
}

} // verus!
