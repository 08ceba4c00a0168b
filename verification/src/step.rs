//! One step of an execution: the operator of a node, run on its inputs. The
//! primitive operators are computed here; an opaque function, and an
//! operator that a pass has installed, are handed to the host.

use crate::combine::zip_binary;
use crate::dim::DynMap;
use crate::elementwise::binary_outcome;
use crate::elementwise::contents;
use crate::elementwise::contiguous_outcome;
use crate::elementwise::make_contiguous;
use crate::elementwise::map_unary;
use crate::elementwise::model_of;
use crate::elementwise::reduce_outcome;
use crate::elementwise::unary_outcome;
use crate::elementwise::OpError;
use crate::graph::Op;
use crate::kernel::total;
use crate::kernel::Arith;
use crate::kernel::BinaryKind;
use crate::kernel::UnaryKind;
use crate::op::Constant;
use crate::op::Operator;
use crate::op::Print;
use crate::reduce::fold_axis;
use crate::tensor::InputTensor;
use crate::tensor::Tensor;
use crate::tracker::LayerSpec;
use crate::tracker::ShapeTracker;
use vstd::prelude::*;

verus! {

/// Why a step produced no output.
#[derive(Debug)]
pub enum StepError {
    /// The operator refused its inputs.
    Op(OpError),
    /// The host failed; the cause is in its words.
    Backend(String),
}

/// The content of a step's result.
pub open spec fn step_contents<T>(out: Result<Vec<Tensor<T>>, StepError>) -> Result<
    Seq<Seq<T>>,
    StepError,
> {
    match out {
        Ok(v) => Ok(v@.map_values(|t: Tensor<T>| t.data@)),
        Err(e) => Err(e),
    }
}

/// The result of a step as the result of a primitive operator, if it is
/// one: a failure of the host is none.
pub open spec fn as_native<T>(out: Result<Seq<Seq<T>>, StepError>) -> Option<
    Result<Seq<Seq<T>>, OpError>,
> {
    match out {
        Ok(v) => Some(Ok(v)),
        Err(StepError::Op(e)) => Some(Err(e)),
        Err(StepError::Backend(_)) => None,
    }
}

/// What the host returned, as the result of a step.
pub open spec fn from_host<T>(res: Result<Vec<Tensor<T>>, String>) -> Result<
    Seq<Seq<T>>,
    StepError,
> {
    match res {
        Ok(v) => Ok(v@.map_values(|t: Tensor<T>| t.data@)),
        Err(cause) => Err(StepError::Backend(cause)),
    }
}

/// Whether the host may be called on every operator and input.
pub open spec fn host_total<
    T,
    H: for <'a> Fn(&'a Op<T>, Vec<(InputTensor<'a, T>, ShapeTracker)>) -> Result<
        Vec<Tensor<T>>,
        String,
    >,
>(host: H) -> bool {
    forall|op: &Op<T>, inp: Vec<(InputTensor<'_, T>, ShapeTracker)>| call_requires(host, (op, inp))
}

/// Whether `out` is a result of handing the operator and inputs of the
/// given content to the host.
pub open spec fn host_outcome<
    T,
    H: for <'a> Fn(&'a Op<T>, Vec<(InputTensor<'a, T>, ShapeTracker)>) -> Result<
        Vec<Tensor<T>>,
        String,
    >,
>(op: Op<T>, inp: Seq<(Seq<T>, Seq<LayerSpec>)>, host: H, out: Result<Seq<Seq<T>>, StepError>) -> bool {
    exists|given: Vec<(InputTensor<'_, T>, ShapeTracker)>, res: Result<Vec<Tensor<T>>, String>|
        model_of(given@) == inp && #[trigger] call_ensures(host, (&op, given), res) && out
            == from_host(res)
}

/// What a step yields, for each kind of operator.
pub open spec fn step_outcome<
    T,
    U: Fn(UnaryKind, T) -> T,
    B: Fn(BinaryKind, T, T) -> T,
    H: for <'a> Fn(&'a Op<T>, Vec<(InputTensor<'a, T>, ShapeTracker)>) -> Result<
        Vec<Tensor<T>>,
        String,
    >,
>(
    op: Op<T>,
    inp: Seq<(Seq<T>, Seq<LayerSpec>)>,
    env: Map<char, usize>,
    arith: Arith<T, U, B>,
    host: H,
    out: Result<Seq<Seq<T>>, StepError>,
) -> bool {
    match op {
        Op::Function(_) => host_outcome(op, inp, host, out),
        Op::Delegated(_) => host_outcome(op, inp, host, out),
        Op::Print(_) => out == Ok::<Seq<Seq<T>>, StepError>(seq![Seq::<T>::empty()]),
        Op::Constant(c) => as_native(out) == Some(
            if inp.len() != 0 {
                Err::<Seq<Seq<T>>, OpError>(OpError::Arity)
            } else {
                Ok::<Seq<Seq<T>>, OpError>(seq![seq![c]])
            },
        ),
        Op::Contiguous => as_native(out) is Some && contiguous_outcome(
            inp,
            env,
            arith.zero,
            as_native(out)->Some_0,
        ),
        Op::Unary(k) => as_native(out) is Some && unary_outcome(
            k,
            inp,
            env,
            arith,
            as_native(out)->Some_0,
        ),
        Op::Binary(k) => as_native(out) is Some && binary_outcome(
            k,
            inp,
            env,
            arith,
            as_native(out)->Some_0,
        ),
        Op::SumReduce(axis) => as_native(out) is Some && reduce_outcome(
            BinaryKind::Add,
            arith.zero,
            axis,
            inp,
            env,
            arith,
            as_native(out)->Some_0,
        ),
        Op::MaxReduce(axis) => as_native(out) is Some && reduce_outcome(
            BinaryKind::Max,
            arith.lowest,
            axis,
            inp,
            env,
            arith,
            as_native(out)->Some_0,
        ),
    }
}

/// The result of a primitive operator as the result of a step.
pub fn lift<T>(r: Result<Vec<Tensor<T>>, OpError>) -> (out: Result<Vec<Tensor<T>>, StepError>)
    ensures
        as_native(step_contents(out)) == Some(contents(r)),
{
    match r {
        Ok(v) => Ok(v),
        Err(e) => Err(StepError::Op(e)),
    }
}

/// Runs the operator `op` on the inputs `inp`.
pub fn run_op<
    'b,
    T: Copy,
    U: Fn(UnaryKind, T) -> T,
    B: Fn(BinaryKind, T, T) -> T,
    H: for <'a> Fn(&'a Op<T>, Vec<(InputTensor<'a, T>, ShapeTracker)>) -> Result<
        Vec<Tensor<T>>,
        String,
    >,
>(
    op: &'b Op<T>,
    inp: Vec<(InputTensor<'b, T>, ShapeTracker)>,
    env: &DynMap,
    arith: &Arith<T, U, B>,
    host: &H,
) -> (out: Result<Vec<Tensor<T>>, StepError>)
    requires
        total(*arith),
        host_total(*host),
    ensures
        step_outcome(*op, model_of(inp@), env@, *arith, *host, step_contents(out)),
{
    match op {
        Op::Function(_) | Op::Delegated(_) => {
            let res = host(op, inp);
            match res {
                Ok(v) => Ok(v),
                Err(cause) => Err(StepError::Backend(cause)),
            }
        },
        Op::Print(label) => {
            let out = vec![Tensor { data: Vec::<T>::new() }];
            assert(out@.map_values(|t: Tensor<T>| t.data@) =~= seq![Seq::<T>::empty()]);
            Ok(out)
        },
        Op::Constant(c) => {
            let k = Constant(*c);
            lift(k.process(inp, env, arith))
        },
        Op::Contiguous => lift(make_contiguous(inp, env, arith.zero)),
        Op::Unary(k) => lift(map_unary(*k, inp, env, arith)),
        Op::Binary(k) => lift(zip_binary(*k, inp, env, arith)),
        Op::SumReduce(axis) => lift(fold_axis(BinaryKind::Add, arith.zero, *axis, inp, env, arith)),
        Op::MaxReduce(axis) => lift(
            fold_axis(BinaryKind::Max, arith.lowest, *axis, inp, env, arith),
        ),
    }
}

} // verus!
