//! The primitive operators. Each consumes tensors with the trackers through
//! which they are read, and produces tensors; what it produces is stated over
//! the elements that the trackers resolve to.

use crate::combine::zip_binary;
use crate::dim::DynMap;
use crate::elementwise::binary_outcome;
use crate::elementwise::contents;
use crate::elementwise::contiguous_outcome;
use crate::elementwise::make_contiguous;
use crate::elementwise::map_unary;
use crate::elementwise::model_of;
use crate::elementwise::reduce_outcome;
use crate::elementwise::unary_outcome;
use crate::elementwise::OpError;
use crate::kernel::total;
use crate::kernel::Arith;
use crate::kernel::BinaryKind;
use crate::kernel::UnaryKind;
use crate::reduce::fold_axis;
use crate::tensor::InputTensor;
use crate::tensor::Tensor;
use crate::tracker::LayerSpec;
use crate::tracker::ShapeTracker;
use vstd::prelude::*;

verus! {

/// A computation from input tensors, each with its tracker, to output
/// tensors. `K` is what the operator needs from its caller to do its work:
/// for the primitive operators, the arithmetic of the element type.
pub trait Operator<T: Copy, K> {
    /// What the operator requires of the caller's capability.
    spec fn admits(&self, kernel: K) -> bool;

    /// What the operator yields on inputs of the given content.
    spec fn outcome(
        &self,
        inp: Seq<(Seq<T>, Seq<LayerSpec>)>,
        env: Map<char, usize>,
        kernel: K,
        out: Result<Seq<Seq<T>>, OpError>,
    ) -> bool;

    /// Runs the operator.
    fn process<'a>(
        &self,
        inp: Vec<(InputTensor<'a, T>, ShapeTracker)>,
        env: &DynMap,
        kernel: &K,
    ) -> (out: Result<Vec<Tensor<T>>, OpError>)
        requires
            self.admits(*kernel),
        ensures
            self.outcome(model_of(inp@), env@, *kernel, contents(out)),
    ;
}

/// An opaque function of the host, under a name.
pub struct Function<F>(pub String, pub F);

impl<'b, T: Copy, K, F: for <'a> Fn(Vec<(InputTensor<'a, T>, ShapeTracker)>) -> Vec<Tensor<T>>> Operator<
    T,
    K,
> for Function<F> {
    open spec fn admits(&self, kernel: K) -> bool {
        forall|inp: Vec<(InputTensor<'b, T>, ShapeTracker)>| call_requires(self.1, (inp,))
    }

    open spec fn outcome(
        &self,
        inp: Seq<(Seq<T>, Seq<LayerSpec>)>,
        env: Map<char, usize>,
        kernel: K,
        out: Result<Seq<Seq<T>>, OpError>,
    ) -> bool {
        exists|given: Vec<(InputTensor<'b, T>, ShapeTracker)>, got: Vec<Tensor<T>>|
            model_of(given@) == inp && #[trigger] call_ensures(self.1, (given,), got) && out
                == contents(Ok::<Vec<Tensor<T>>, OpError>(got))
    }

    fn process<'a>(
        &self,
        inp: Vec<(InputTensor<'a, T>, ShapeTracker)>,
        env: &DynMap,
        kernel: &K,
    ) -> (out: Result<Vec<Tensor<T>>, OpError>) {
        let got = (self.1)(inp);
        Ok(got)
    }
}

/// Two opaque functions are taken for the same when they have the same name.
impl<F> PartialEq for Function<F> {
    fn eq(&self, other: &Self) -> (r: bool) {
        self.0 == other.0
    }
}

impl<F> vstd::std_specs::cmp::PartialEqSpecImpl for Function<F> {
    open spec fn obeys_eq_spec() -> bool {
        true
    }

    open spec fn eq_spec(&self, other: &Self) -> bool {
        self.0@ == other.0@
    }
}

/// A diagnostic: it transforms nothing and forwards nothing. What is shown
/// of its inputs, under its label, is the caller's business; its one output
/// is empty.
#[derive(Clone, Debug, Default)]
pub struct Print(pub String);

impl<T: Copy, K> Operator<T, K> for Print {
    open spec fn admits(&self, kernel: K) -> bool {
        true
    }

    open spec fn outcome(
        &self,
        inp: Seq<(Seq<T>, Seq<LayerSpec>)>,
        env: Map<char, usize>,
        kernel: K,
        out: Result<Seq<Seq<T>>, OpError>,
    ) -> bool {
        out == Ok::<Seq<Seq<T>>, OpError>(seq![Seq::<T>::empty()])
    }

    fn process<'a>(
        &self,
        inp: Vec<(InputTensor<'a, T>, ShapeTracker)>,
        env: &DynMap,
        kernel: &K,
    ) -> (out: Result<Vec<Tensor<T>>, OpError>) {
        let out = vec![Tensor { data: Vec::<T>::new() }];
        assert(out@.map_values(|t: Tensor<T>| t.data@) =~= seq![Seq::<T>::empty()]);
        Ok(out)
    }
}

/// A single element, known when the graph is built. It takes no input.
#[derive(Clone, Copy, Debug)]
pub struct Constant<T>(pub T);

impl<T: Copy, K> Operator<T, K> for Constant<T> {
    open spec fn admits(&self, kernel: K) -> bool {
        true
    }

    open spec fn outcome(
        &self,
        inp: Seq<(Seq<T>, Seq<LayerSpec>)>,
        env: Map<char, usize>,
        kernel: K,
        out: Result<Seq<Seq<T>>, OpError>,
    ) -> bool {
        if inp.len() != 0 {
            out == Err::<Seq<Seq<T>>, OpError>(OpError::Arity)
        } else {
            out == Ok::<Seq<Seq<T>>, OpError>(seq![seq![self.0]])
        }
    }

    fn process<'a>(
        &self,
        inp: Vec<(InputTensor<'a, T>, ShapeTracker)>,
        env: &DynMap,
        kernel: &K,
    ) -> (out: Result<Vec<Tensor<T>>, OpError>) {
        if inp.len() != 0 {
            return Err(OpError::Arity);
        }
        let mut data: Vec<T> = Vec::new();
        data.push(self.0);
        assert(data@ =~= seq![self.0]);
        let out = vec![Tensor { data }];
        assert(out@.map_values(|t: Tensor<T>| t.data@) =~= seq![seq![self.0]]);
        Ok(out)
    }
}

/// Lays a tensor out densely: element `i` of the output is what logical
/// index `i` of the input reads, and zero where that index is invalid.
#[derive(Clone, Copy, Debug, PartialEq, Eq, Structural)]
pub struct Contiguous;

impl<T: Copy, U: Fn(UnaryKind, T) -> T, B: Fn(BinaryKind, T, T) -> T> Operator<
    T,
    Arith<T, U, B>,
> for Contiguous {
    open spec fn admits(&self, kernel: Arith<T, U, B>) -> bool {
        true
    }

    open spec fn outcome(
        &self,
        inp: Seq<(Seq<T>, Seq<LayerSpec>)>,
        env: Map<char, usize>,
        kernel: Arith<T, U, B>,
        out: Result<Seq<Seq<T>>, OpError>,
    ) -> bool {
        contiguous_outcome(inp, env, kernel.zero, out)
    }

    fn process<'a>(
        &self,
        inp: Vec<(InputTensor<'a, T>, ShapeTracker)>,
        env: &DynMap,
        kernel: &Arith<T, U, B>,
    ) -> (out: Result<Vec<Tensor<T>>, OpError>) {
        make_contiguous(inp, env, kernel.zero)
    }
}

/// The logarithm to base two of every element.
#[derive(Clone, Copy, Debug, Default, PartialEq, Eq, Structural)]
pub struct Log2;

impl<T: Copy, U: Fn(UnaryKind, T) -> T, B: Fn(BinaryKind, T, T) -> T> Operator<
    T,
    Arith<T, U, B>,
> for Log2 {
    open spec fn admits(&self, kernel: Arith<T, U, B>) -> bool {
        total(kernel)
    }

    open spec fn outcome(
        &self,
        inp: Seq<(Seq<T>, Seq<LayerSpec>)>,
        env: Map<char, usize>,
        kernel: Arith<T, U, B>,
        out: Result<Seq<Seq<T>>, OpError>,
    ) -> bool {
        unary_outcome(UnaryKind::Log2, inp, env, kernel, out)
    }

    fn process<'a>(
        &self,
        inp: Vec<(InputTensor<'a, T>, ShapeTracker)>,
        env: &DynMap,
        kernel: &Arith<T, U, B>,
    ) -> (out: Result<Vec<Tensor<T>>, OpError>) {
        map_unary(UnaryKind::Log2, inp, env, kernel)
    }
}

/// Two to the power of every element.
#[derive(Clone, Copy, Debug, Default, PartialEq, Eq, Structural)]
pub struct Exp2;

impl<T: Copy, U: Fn(UnaryKind, T) -> T, B: Fn(BinaryKind, T, T) -> T> Operator<
    T,
    Arith<T, U, B>,
> for Exp2 {
    open spec fn admits(&self, kernel: Arith<T, U, B>) -> bool {
        total(kernel)
    }

    open spec fn outcome(
        &self,
        inp: Seq<(Seq<T>, Seq<LayerSpec>)>,
        env: Map<char, usize>,
        kernel: Arith<T, U, B>,
        out: Result<Seq<Seq<T>>, OpError>,
    ) -> bool {
        unary_outcome(UnaryKind::Exp2, inp, env, kernel, out)
    }

    fn process<'a>(
        &self,
        inp: Vec<(InputTensor<'a, T>, ShapeTracker)>,
        env: &DynMap,
        kernel: &Arith<T, U, B>,
    ) -> (out: Result<Vec<Tensor<T>>, OpError>) {
        map_unary(UnaryKind::Exp2, inp, env, kernel)
    }
}

/// The sine of every element.
#[derive(Clone, Copy, Debug, Default, PartialEq, Eq, Structural)]
pub struct Sin;

impl<T: Copy, U: Fn(UnaryKind, T) -> T, B: Fn(BinaryKind, T, T) -> T> Operator<
    T,
    Arith<T, U, B>,
> for Sin {
    open spec fn admits(&self, kernel: Arith<T, U, B>) -> bool {
        total(kernel)
    }

    open spec fn outcome(
        &self,
        inp: Seq<(Seq<T>, Seq<LayerSpec>)>,
        env: Map<char, usize>,
        kernel: Arith<T, U, B>,
        out: Result<Seq<Seq<T>>, OpError>,
    ) -> bool {
        unary_outcome(UnaryKind::Sin, inp, env, kernel, out)
    }

    fn process<'a>(
        &self,
        inp: Vec<(InputTensor<'a, T>, ShapeTracker)>,
        env: &DynMap,
        kernel: &Arith<T, U, B>,
    ) -> (out: Result<Vec<Tensor<T>>, OpError>) {
        map_unary(UnaryKind::Sin, inp, env, kernel)
    }
}

/// The square root of every element.
#[derive(Clone, Copy, Debug, Default, PartialEq, Eq, Structural)]
pub struct Sqrt;

impl<T: Copy, U: Fn(UnaryKind, T) -> T, B: Fn(BinaryKind, T, T) -> T> Operator<
    T,
    Arith<T, U, B>,
> for Sqrt {
    open spec fn admits(&self, kernel: Arith<T, U, B>) -> bool {
        total(kernel)
    }

    open spec fn outcome(
        &self,
        inp: Seq<(Seq<T>, Seq<LayerSpec>)>,
        env: Map<char, usize>,
        kernel: Arith<T, U, B>,
        out: Result<Seq<Seq<T>>, OpError>,
    ) -> bool {
        unary_outcome(UnaryKind::Sqrt, inp, env, kernel, out)
    }

    fn process<'a>(
        &self,
        inp: Vec<(InputTensor<'a, T>, ShapeTracker)>,
        env: &DynMap,
        kernel: &Arith<T, U, B>,
    ) -> (out: Result<Vec<Tensor<T>>, OpError>) {
        map_unary(UnaryKind::Sqrt, inp, env, kernel)
    }
}

/// The reciprocal of every element.
#[derive(Clone, Copy, Debug, Default, PartialEq, Eq, Structural)]
pub struct Recip;

impl<T: Copy, U: Fn(UnaryKind, T) -> T, B: Fn(BinaryKind, T, T) -> T> Operator<
    T,
    Arith<T, U, B>,
> for Recip {
    open spec fn admits(&self, kernel: Arith<T, U, B>) -> bool {
        total(kernel)
    }

    open spec fn outcome(
        &self,
        inp: Seq<(Seq<T>, Seq<LayerSpec>)>,
        env: Map<char, usize>,
        kernel: Arith<T, U, B>,
        out: Result<Seq<Seq<T>>, OpError>,
    ) -> bool {
        unary_outcome(UnaryKind::Recip, inp, env, kernel, out)
    }

    fn process<'a>(
        &self,
        inp: Vec<(InputTensor<'a, T>, ShapeTracker)>,
        env: &DynMap,
        kernel: &Arith<T, U, B>,
    ) -> (out: Result<Vec<Tensor<T>>, OpError>) {
        map_unary(UnaryKind::Recip, inp, env, kernel)
    }
}

/// The sum of two tensors, broadcast against each other.
#[derive(Clone, Copy, Debug, Default, PartialEq, Eq, Structural)]
pub struct Add;

impl<T: Copy, U: Fn(UnaryKind, T) -> T, B: Fn(BinaryKind, T, T) -> T> Operator<
    T,
    Arith<T, U, B>,
> for Add {
    open spec fn admits(&self, kernel: Arith<T, U, B>) -> bool {
        total(kernel)
    }

    open spec fn outcome(
        &self,
        inp: Seq<(Seq<T>, Seq<LayerSpec>)>,
        env: Map<char, usize>,
        kernel: Arith<T, U, B>,
        out: Result<Seq<Seq<T>>, OpError>,
    ) -> bool {
        binary_outcome(BinaryKind::Add, inp, env, kernel, out)
    }

    fn process<'a>(
        &self,
        inp: Vec<(InputTensor<'a, T>, ShapeTracker)>,
        env: &DynMap,
        kernel: &Arith<T, U, B>,
    ) -> (out: Result<Vec<Tensor<T>>, OpError>) {
        zip_binary(BinaryKind::Add, inp, env, kernel)
    }
}

/// The product of two tensors, broadcast against each other.
#[derive(Clone, Copy, Debug, Default, PartialEq, Eq, Structural)]
pub struct Mul;

impl<T: Copy, U: Fn(UnaryKind, T) -> T, B: Fn(BinaryKind, T, T) -> T> Operator<
    T,
    Arith<T, U, B>,
> for Mul {
    open spec fn admits(&self, kernel: Arith<T, U, B>) -> bool {
        total(kernel)
    }

    open spec fn outcome(
        &self,
        inp: Seq<(Seq<T>, Seq<LayerSpec>)>,
        env: Map<char, usize>,
        kernel: Arith<T, U, B>,
        out: Result<Seq<Seq<T>>, OpError>,
    ) -> bool {
        binary_outcome(BinaryKind::Mul, inp, env, kernel, out)
    }

    fn process<'a>(
        &self,
        inp: Vec<(InputTensor<'a, T>, ShapeTracker)>,
        env: &DynMap,
        kernel: &Arith<T, U, B>,
    ) -> (out: Result<Vec<Tensor<T>>, OpError>) {
        zip_binary(BinaryKind::Mul, inp, env, kernel)
    }
}

/// The remainder of one tensor by another, broadcast against each other.
#[derive(Clone, Copy, Debug, Default, PartialEq, Eq, Structural)]
pub struct Mod;

impl<T: Copy, U: Fn(UnaryKind, T) -> T, B: Fn(BinaryKind, T, T) -> T> Operator<
    T,
    Arith<T, U, B>,
> for Mod {
    open spec fn admits(&self, kernel: Arith<T, U, B>) -> bool {
        total(kernel)
    }

    open spec fn outcome(
        &self,
        inp: Seq<(Seq<T>, Seq<LayerSpec>)>,
        env: Map<char, usize>,
        kernel: Arith<T, U, B>,
        out: Result<Seq<Seq<T>>, OpError>,
    ) -> bool {
        binary_outcome(BinaryKind::Mod, inp, env, kernel, out)
    }

    fn process<'a>(
        &self,
        inp: Vec<(InputTensor<'a, T>, ShapeTracker)>,
        env: &DynMap,
        kernel: &Arith<T, U, B>,
    ) -> (out: Result<Vec<Tensor<T>>, OpError>) {
        zip_binary(BinaryKind::Mod, inp, env, kernel)
    }
}

/// Whether one tensor is less than another, element by element, broadcast
/// against each other: the scalar function gives one for yes and zero for
/// no.
#[derive(Clone, Copy, Debug, Default, PartialEq, Eq, Structural)]
pub struct LessThan;

impl<T: Copy, U: Fn(UnaryKind, T) -> T, B: Fn(BinaryKind, T, T) -> T> Operator<
    T,
    Arith<T, U, B>,
> for LessThan {
    open spec fn admits(&self, kernel: Arith<T, U, B>) -> bool {
        total(kernel)
    }

    open spec fn outcome(
        &self,
        inp: Seq<(Seq<T>, Seq<LayerSpec>)>,
        env: Map<char, usize>,
        kernel: Arith<T, U, B>,
        out: Result<Seq<Seq<T>>, OpError>,
    ) -> bool {
        binary_outcome(BinaryKind::LessThan, inp, env, kernel, out)
    }

    fn process<'a>(
        &self,
        inp: Vec<(InputTensor<'a, T>, ShapeTracker)>,
        env: &DynMap,
        kernel: &Arith<T, U, B>,
    ) -> (out: Result<Vec<Tensor<T>>, OpError>) {
        zip_binary(BinaryKind::LessThan, inp, env, kernel)
    }
}

/// The larger of two tensors, element by element, broadcast against each
/// other.
#[derive(Clone, Copy, Debug, Default, PartialEq, Eq, Structural)]
pub struct Max;

impl<T: Copy, U: Fn(UnaryKind, T) -> T, B: Fn(BinaryKind, T, T) -> T> Operator<
    T,
    Arith<T, U, B>,
> for Max {
    open spec fn admits(&self, kernel: Arith<T, U, B>) -> bool {
        total(kernel)
    }

    open spec fn outcome(
        &self,
        inp: Seq<(Seq<T>, Seq<LayerSpec>)>,
        env: Map<char, usize>,
        kernel: Arith<T, U, B>,
        out: Result<Seq<Seq<T>>, OpError>,
    ) -> bool {
        binary_outcome(BinaryKind::Max, inp, env, kernel, out)
    }

    fn process<'a>(
        &self,
        inp: Vec<(InputTensor<'a, T>, ShapeTracker)>,
        env: &DynMap,
        kernel: &Arith<T, U, B>,
    ) -> (out: Result<Vec<Tensor<T>>, OpError>) {
        zip_binary(BinaryKind::Max, inp, env, kernel)
    }
}

/// The sum of the elements along one axis.
#[derive(Clone, Copy, Debug, Default, PartialEq, Eq, Structural)]
pub struct SumReduce(pub usize);

impl<T: Copy, U: Fn(UnaryKind, T) -> T, B: Fn(BinaryKind, T, T) -> T> Operator<
    T,
    Arith<T, U, B>,
> for SumReduce {
    open spec fn admits(&self, kernel: Arith<T, U, B>) -> bool {
        total(kernel)
    }

    open spec fn outcome(
        &self,
        inp: Seq<(Seq<T>, Seq<LayerSpec>)>,
        env: Map<char, usize>,
        kernel: Arith<T, U, B>,
        out: Result<Seq<Seq<T>>, OpError>,
    ) -> bool {
        reduce_outcome(BinaryKind::Add, kernel.zero, self.0, inp, env, kernel, out)
    }

    fn process<'a>(
        &self,
        inp: Vec<(InputTensor<'a, T>, ShapeTracker)>,
        env: &DynMap,
        kernel: &Arith<T, U, B>,
    ) -> (out: Result<Vec<Tensor<T>>, OpError>) {
        fold_axis(BinaryKind::Add, kernel.zero, self.0, inp, env, kernel)
    }
}

/// The largest of the elements along one axis.
#[derive(Clone, Copy, Debug, Default, PartialEq, Eq, Structural)]
pub struct MaxReduce(pub usize);

impl<T: Copy, U: Fn(UnaryKind, T) -> T, B: Fn(BinaryKind, T, T) -> T> Operator<
    T,
    Arith<T, U, B>,
> for MaxReduce {
    open spec fn admits(&self, kernel: Arith<T, U, B>) -> bool {
        total(kernel)
    }

    open spec fn outcome(
        &self,
        inp: Seq<(Seq<T>, Seq<LayerSpec>)>,
        env: Map<char, usize>,
        kernel: Arith<T, U, B>,
        out: Result<Seq<Seq<T>>, OpError>,
    ) -> bool {
        reduce_outcome(BinaryKind::Max, kernel.lowest, self.0, inp, env, kernel, out)
    }

    fn process<'a>(
        &self,
        inp: Vec<(InputTensor<'a, T>, ShapeTracker)>,
        env: &DynMap,
        kernel: &Arith<T, U, B>,
    ) -> (out: Result<Vec<Tensor<T>>, OpError>) {
        fold_axis(BinaryKind::Max, kernel.lowest, self.0, inp, env, kernel)
    }
}

} // verus!
