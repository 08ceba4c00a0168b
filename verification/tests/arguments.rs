use luminal::graph::BinaryOpMetadata;
use luminal::graph::OpCategory;
use luminal::graph::ReduceOpMetadata;
use luminal::serialization::index_array;
use luminal::serialization::serialize_inputs;
use luminal::serialization::serialize_inputs_binary_op;
use luminal::serialization::serialize_inputs_element_wise;
use luminal::serialization::serialize_inputs_reduce_nd;
use luminal::serialization::FuncArgValue;
use luminal::serialization::SerializeError;

/// The arguments as plain lists; a single number as a list of one, marked.
fn plain(args: Vec<FuncArgValue>) -> Vec<(bool, Vec<i64>)> {
    args.into_iter()
        .map(|a| match a {
            FuncArgValue::Array(v) => (true, v),
            FuncArgValue::Single(x) => (false, vec![x]),
        })
        .collect()
}

#[test]
fn the_buffers_come_in_order() {
    let args = serialize_inputs_element_wise(vec![vec![1, 2], vec![], vec![-3]]);
    assert_eq!(plain(args), vec![(true, vec![1, 2]), (true, vec![]), (true, vec![-3])]);
    assert!(serialize_inputs_element_wise(Vec::new()).is_empty());
}

#[test]
fn a_binary_program_gets_both_tables_after_the_buffers() {
    let meta = BinaryOpMetadata { lhs_indices: vec![0, 1, 2, 3], rhs_indices: vec![0, 0, 1, 1] };
    let args = serialize_inputs_binary_op(vec![vec![5, 6, 7, 8], vec![9, 10]], &meta).unwrap();
    assert_eq!(
        plain(args),
        vec![
            (true, vec![5, 6, 7, 8]),
            (true, vec![9, 10]),
            (true, vec![0, 1, 2, 3]),
            (true, vec![0, 0, 1, 1]),
        ]
    );
}

#[test]
fn a_reduction_gets_its_table_and_the_number_of_outputs() {
    let meta = ReduceOpMetadata { output_indices: vec![0, 1, 0, 1], output_size: 2 };
    let args = serialize_inputs_reduce_nd(vec![vec![4, 3, 2, 1]], &meta).unwrap();
    assert_eq!(
        plain(args),
        vec![(true, vec![4, 3, 2, 1]), (true, vec![0, 1, 0, 1]), (false, vec![2])]
    );
}

#[test]
fn an_index_beyond_the_largest_argument_is_refused() {
    let top = i64::MAX as usize;
    assert_eq!(index_array(&vec![0, top]), Some(vec![0, i64::MAX]));
    assert_eq!(index_array(&vec![0, top + 1]), None);
    let meta = BinaryOpMetadata { lhs_indices: vec![0], rhs_indices: vec![top + 1] };
    assert_eq!(
        serialize_inputs_binary_op(vec![vec![1], vec![2]], &meta).err(),
        Some(SerializeError::IndexTooLarge)
    );
    let meta = BinaryOpMetadata { lhs_indices: vec![usize::MAX], rhs_indices: vec![0] };
    assert_eq!(
        serialize_inputs_binary_op(vec![vec![1], vec![2]], &meta).err(),
        Some(SerializeError::IndexTooLarge)
    );
    let meta = ReduceOpMetadata { output_indices: vec![0], output_size: top + 1 };
    assert_eq!(
        serialize_inputs_reduce_nd(vec![vec![1]], &meta).err(),
        Some(SerializeError::IndexTooLarge)
    );
    let meta = ReduceOpMetadata { output_indices: vec![top + 1], output_size: 1 };
    assert_eq!(
        serialize_inputs_reduce_nd(vec![vec![1]], &meta).err(),
        Some(SerializeError::IndexTooLarge)
    );
}

#[test]
fn the_category_decides_what_follows_the_buffers() {
    let args = serialize_inputs(vec![vec![1, 2]], &OpCategory::Unary).unwrap();
    assert_eq!(plain(args), vec![(true, vec![1, 2])]);
    let args = serialize_inputs(vec![vec![1, 2]], &OpCategory::Reduce(None)).unwrap();
    assert_eq!(plain(args), vec![(true, vec![1, 2])]);
    let meta = ReduceOpMetadata { output_indices: vec![0, 0], output_size: 1 };
    let args = serialize_inputs(vec![vec![1, 2]], &OpCategory::Reduce(Some(meta))).unwrap();
    assert_eq!(plain(args), vec![(true, vec![1, 2]), (true, vec![0, 0]), (false, vec![1])]);
    let meta = BinaryOpMetadata { lhs_indices: vec![0, 1], rhs_indices: vec![0, 0] };
    let args = serialize_inputs(vec![vec![1, 2], vec![3]], &OpCategory::Binary(meta)).unwrap();
    assert_eq!(
        plain(args),
        vec![(true, vec![1, 2]), (true, vec![3]), (true, vec![0, 1]), (true, vec![0, 0])]
    );
    let meta = BinaryOpMetadata { lhs_indices: vec![usize::MAX], rhs_indices: vec![0] };
    assert_eq!(
        serialize_inputs(vec![vec![1], vec![3]], &OpCategory::Binary(meta)).err(),
        Some(SerializeError::IndexTooLarge)
    );
}
