//! The arguments of a program that runs outside the library: the buffers of
//! the inputs, as fixed-point integers, followed by the index tables of the
//! operator.

use crate::graph::BinaryOpMetadata;
use crate::graph::OpCategory;
use crate::graph::ReduceOpMetadata;
use vstd::prelude::*;

verus! {

/// One argument of a program: an array of numbers, or a single number.
#[derive(Debug)]
pub enum FuncArgValue {
    Array(Vec<i64>),
    Single(i64),
}

/// Why the arguments of a program could not be laid out.
#[derive(Clone, Copy, Debug, PartialEq, Eq, Structural)]
pub enum SerializeError {
    /// An index or a count exceeds the largest number of an argument.
    IndexTooLarge,
}

/// The content of an argument.
pub ghost enum ArgSpec {
    Array(Seq<i64>),
    Single(i64),
}

/// The content of a list of arguments.
pub open spec fn args_model(args: Seq<FuncArgValue>) -> Seq<ArgSpec> {
    args.map_values(
        |a: FuncArgValue|
            match a {
                FuncArgValue::Array(v) => ArgSpec::Array(v@),
                FuncArgValue::Single(x) => ArgSpec::Single(x),
            },
    )
}

/// The buffers of the inputs, one array each, in order.
pub open spec fn buffer_args(inputs: Seq<Vec<i64>>) -> Seq<ArgSpec> {
    inputs.map_values(|v: Vec<i64>| ArgSpec::Array(v@))
}

/// Whether every index fits an argument.
pub open spec fn indices_fit(indices: Seq<usize>) -> bool {
    forall|k: int| 0 <= k < indices.len() ==> indices[k] <= i64::MAX
}

/// A table of indices as the numbers of an argument.
pub open spec fn index_values(indices: Seq<usize>) -> Seq<i64> {
    indices.map_values(|x: usize| x as i64)
}

/// A table of indices as the numbers of an argument, unless an index is too
/// large for one.
pub fn index_array(indices: &Vec<usize>) -> (r: Option<Vec<i64>>)
    ensures
        match r {
            Some(v) => indices_fit(indices@) && v@ == index_values(indices@),
            None => !indices_fit(indices@),
        },
{
    let mut out: Vec<i64> = Vec::new();
    let mut k: usize = 0;
    while k < indices.len()
        invariant
            k <= indices.len(),
            out.len() == k,
            forall|j: int| 0 <= j < k ==> (#[trigger] indices[j]) <= i64::MAX,
            forall|j: int| 0 <= j < k ==> #[trigger] out[j] == indices[j] as i64,
        decreases indices.len() - k,
    {
        let x: usize = indices[k];
        if x as u128 > 0x7fff_ffff_ffff_ffffu128 {
            return None;
        }
        assert(x <= i64::MAX) by {
            assert(0x7fff_ffff_ffff_ffffu128 == i64::MAX as u128);
        }
        let y: i64 = x as i64;
        assert(y == indices[k as int] as i64);
        out.push(y);
        k += 1;
    }
    assert(out@ =~= index_values(indices@));
    Some(out)
}

/// The arguments of an element-wise program: the buffers of the inputs.
pub fn serialize_inputs_element_wise(inputs: Vec<Vec<i64>>) -> (r: Vec<FuncArgValue>)
    ensures
        args_model(r@) == buffer_args(inputs@),
{
    let mut inputs = inputs;
    let ghost all = inputs@;
    let mut reversed: Vec<Vec<i64>> = Vec::new();
    while inputs.len() > 0
        invariant
            inputs.len() + reversed.len() == all.len(),
            forall|j: int| 0 <= j < inputs.len() ==> inputs[j] == all[j],
            forall|j: int| 0 <= j < reversed.len() ==> reversed[j] == all[all.len() - 1 - j],
        decreases inputs.len(),
    {
        match inputs.pop() {
            Some(v) => {
                reversed.push(v);
            },
            None => {},
        }
    }
    let mut serialized: Vec<FuncArgValue> = Vec::new();
    while reversed.len() > 0
        invariant
            reversed.len() + serialized.len() == all.len(),
            forall|j: int| 0 <= j < reversed.len() ==> reversed[j] == all[all.len() - 1 - j],
            forall|j: int|
                0 <= j < serialized.len() ==> args_model(serialized@)[j] == ArgSpec::Array(
                    all[j]@,
                ),
        decreases reversed.len(),
    {
        let ghost before = serialized@;
        match reversed.pop() {
            Some(v) => {
                serialized.push(FuncArgValue::Array(v));
                assert forall|j: int| 0 <= j < serialized.len() implies args_model(
                    serialized@,
                )[j] == ArgSpec::Array(all[j]@) by {
                    if j < before.len() {
                        assert(args_model(before)[j] == ArgSpec::Array(all[j]@));
                    }
                }
            },
            None => {},
        }
    }
    assert(args_model(serialized@) =~= buffer_args(all));
    serialized
}

/// The arguments of a binary program: the buffers of the inputs, then the
/// table of the left operand and the table of the right one.
pub fn serialize_inputs_binary_op(inputs: Vec<Vec<i64>>, metadata: &BinaryOpMetadata) -> (r:
    Result<Vec<FuncArgValue>, SerializeError>)
    ensures
        match r {
            Ok(args) => {
                &&& indices_fit(metadata.lhs_indices@)
                &&& indices_fit(metadata.rhs_indices@)
                &&& args_model(args@) == buffer_args(inputs@).push(
                    ArgSpec::Array(index_values(metadata.lhs_indices@)),
                ).push(ArgSpec::Array(index_values(metadata.rhs_indices@)))
            },
            Err(e) => e == SerializeError::IndexTooLarge && !(indices_fit(metadata.lhs_indices@)
                && indices_fit(metadata.rhs_indices@)),
        },
{
    let lhs = match index_array(&metadata.lhs_indices) {
        Some(v) => v,
        None => {
            return Err(SerializeError::IndexTooLarge);
        },
    };
    let rhs = match index_array(&metadata.rhs_indices) {
        Some(v) => v,
        None => {
            return Err(SerializeError::IndexTooLarge);
        },
    };
    let mut serialized = serialize_inputs_element_wise(inputs);
    let ghost buffers = args_model(serialized@);
    serialized.push(FuncArgValue::Array(lhs));
    serialized.push(FuncArgValue::Array(rhs));
    assert(args_model(serialized@) =~= buffers.push(
        ArgSpec::Array(index_values(metadata.lhs_indices@)),
    ).push(ArgSpec::Array(index_values(metadata.rhs_indices@))));
    Ok(serialized)
}

/// The arguments of a reduction over more than one axis: the buffers of the
/// inputs, then the table of output positions and the number of outputs.
pub fn serialize_inputs_reduce_nd(inputs: Vec<Vec<i64>>, metadata: &ReduceOpMetadata) -> (r:
    Result<Vec<FuncArgValue>, SerializeError>)
    ensures
        match r {
            Ok(args) => {
                &&& indices_fit(metadata.output_indices@)
                &&& metadata.output_size <= i64::MAX
                &&& args_model(args@) == buffer_args(inputs@).push(
                    ArgSpec::Array(index_values(metadata.output_indices@)),
                ).push(ArgSpec::Single(metadata.output_size as i64))
            },
            Err(e) => e == SerializeError::IndexTooLarge && !(indices_fit(
                metadata.output_indices@,
            ) && metadata.output_size <= i64::MAX),
        },
{
    let table = match index_array(&metadata.output_indices) {
        Some(v) => v,
        None => {
            return Err(SerializeError::IndexTooLarge);
        },
    };
    if metadata.output_size as u128 > 0x7fff_ffff_ffff_ffffu128 {
        return Err(SerializeError::IndexTooLarge);
    }
    let mut serialized = serialize_inputs_element_wise(inputs);
    let ghost buffers = args_model(serialized@);
    serialized.push(FuncArgValue::Array(table));
    serialized.push(FuncArgValue::Single(metadata.output_size as i64));
    assert(args_model(serialized@) =~= buffers.push(
        ArgSpec::Array(index_values(metadata.output_indices@)),
    ).push(ArgSpec::Single(metadata.output_size as i64)));
    Ok(serialized)
}

/// What the arguments of a program of the given category are, on the
/// buffers of its inputs: the buffers, followed by the tables of the
/// category, if it has any.
pub open spec fn arguments(inputs: Seq<Vec<i64>>, category: OpCategory) -> Result<
    Seq<ArgSpec>,
    SerializeError,
> {
    match category {
        OpCategory::Unary => Ok(buffer_args(inputs)),
        OpCategory::Reduce(None) => Ok(buffer_args(inputs)),
        OpCategory::Binary(meta) => if indices_fit(meta.lhs_indices@) && indices_fit(
            meta.rhs_indices@,
        ) {
            Ok(
                buffer_args(inputs).push(ArgSpec::Array(index_values(meta.lhs_indices@))).push(
                    ArgSpec::Array(index_values(meta.rhs_indices@)),
                ),
            )
        } else {
            Err(SerializeError::IndexTooLarge)
        },
        OpCategory::Reduce(Some(meta)) => if indices_fit(meta.output_indices@) && meta.output_size
            <= i64::MAX {
            Ok(
                buffer_args(inputs).push(
                    ArgSpec::Array(index_values(meta.output_indices@)),
                ).push(ArgSpec::Single(meta.output_size as i64)),
            )
        } else {
            Err(SerializeError::IndexTooLarge)
        },
    }
}

/// The arguments of a program of the given category, on the buffers of its
/// inputs.
pub fn serialize_inputs(inputs: Vec<Vec<i64>>, category: &OpCategory) -> (r: Result<
    Vec<FuncArgValue>,
    SerializeError,
>)
    ensures
        match r {
            Ok(args) => arguments(inputs@, *category) == Ok::<Seq<ArgSpec>, SerializeError>(
                args_model(args@),
            ),
            Err(e) => arguments(inputs@, *category) == Err::<Seq<ArgSpec>, SerializeError>(e),
        },
{
    match category {
        OpCategory::Unary => Ok(serialize_inputs_element_wise(inputs)),
        OpCategory::Binary(meta) => serialize_inputs_binary_op(inputs, meta),
        OpCategory::Reduce(None) => Ok(serialize_inputs_element_wise(inputs)),
        OpCategory::Reduce(Some(meta)) => serialize_inputs_reduce_nd(inputs, meta),
    }
}

} // verus!
