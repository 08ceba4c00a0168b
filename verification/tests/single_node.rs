use luminal::ahead::compile_add;
use luminal::dim::Dim;
use luminal::elementwise::OpError;
use luminal::engine::ExecError;
use luminal::graph::Graph;
use luminal::graph::Op;
use luminal::graph::OpCategory;
use luminal::kernel::BinaryKind;
use luminal::kernel::UnaryKind;
use luminal::lower::CompileError;
use luminal::ops::compile_binary;
use luminal::ops::compile_mul;
use luminal::ops::compile_reduce;
use luminal::ops::compile_unary;
use luminal::tensor::InputTensor;
use luminal::tensor::Tensor;
use luminal::tracker::ShapeError;
use luminal::tracker::ShapeTracker;

fn shaped(shape: &[usize]) -> ShapeTracker {
    ShapeTracker::new(shape.iter().map(|&n| Dim::Known(n)).collect())
}

fn leaf(cx: &mut Graph<f32>, data: Vec<f32>) -> usize {
    let id = cx.add_op(Op::Function(format!("Load")), &Vec::new()).unwrap();
    assert!(cx.set_tensor(id, Tensor::new(data)));
    id
}

fn on(cx: &mut Graph<f32>, op: Op<f32>, inputs: Vec<(usize, &[usize])>) -> usize {
    let list: Vec<(usize, usize, ShapeTracker)> =
        inputs.into_iter().map(|(id, shape)| (id, 0, shaped(shape))).collect();
    cx.add_op(op, &list).unwrap()
}

/// Adds the buffers of the two inputs, element by element.
fn adder(
    _op: &Op<f32>,
    inp: Vec<(InputTensor<f32>, ShapeTracker)>,
) -> Result<Vec<Tensor<f32>>, String> {
    let a = &inp[0].0.borrowed().data;
    let b = &inp[1].0.borrowed().data;
    Ok(vec![Tensor::new(a.iter().zip(b.iter()).map(|(x, y)| x + y).collect())])
}

fn failing(
    _op: &Op<f32>,
    _inp: Vec<(InputTensor<f32>, ShapeTracker)>,
) -> Result<Vec<Tensor<f32>>, String> {
    Err(format!("out of steps"))
}

#[test]
fn a_unary_node_is_replaced_by_the_operator_of_the_program() {
    let mut cx: Graph<f32> = Graph::new();
    let a = leaf(&mut cx, vec![1., 2.]);
    let sin = on(&mut cx, Op::Unary(UnaryKind::Sin), vec![(a, &[2])]);
    let after = on(&mut cx, Op::Unary(UnaryKind::Sqrt), vec![(sin, &[2])]);
    cx.retain(sin);
    let mut ids = vec![a, sin, after, sin];
    assert_eq!(compile_unary(&mut cx, sin, &mut ids, format!("sin.sierra.json")), Ok(()));
    assert_eq!(ids, vec![a, 3, after, 3]);
    assert!(!cx.has_node(sin));
    assert!(cx.is_retained(3));
    match &cx.nodes[3].as_ref().unwrap().op {
        Op::Delegated(d) => {
            assert_eq!(d.program, "sin.sierra.json");
            assert!(matches!(d.category, OpCategory::Unary));
        }
        other => panic!("{:?}", other),
    }
    let sources: Vec<(usize, usize)> =
        cx.get_sources(3).into_iter().map(|s| (s.0, s.1)).collect();
    assert_eq!(sources, vec![(a, 0)]);
    let sources: Vec<(usize, usize)> =
        cx.get_sources(after).into_iter().map(|s| (s.0, s.1)).collect();
    assert_eq!(sources, vec![(3, 0)]);
}

#[test]
fn a_unary_node_needs_one_input() {
    let mut cx: Graph<f32> = Graph::new();
    let a = leaf(&mut cx, vec![1., 2.]);
    let two = on(&mut cx, Op::Unary(UnaryKind::Sin), vec![(a, &[2]), (a, &[2])]);
    let mut ids = vec![two];
    assert_eq!(
        compile_unary(&mut cx, two, &mut ids, format!("sin.sierra.json")),
        Err(CompileError::UnsupportedOperation(two))
    );
    assert_eq!(ids, vec![two]);
    assert!(cx.has_node(two));
    assert_eq!(cx.nodes.len(), 2);
    // a node that is not there has no input
    assert_eq!(
        compile_unary(&mut cx, 9, &mut ids, format!("sin.sierra.json")),
        Err(CompileError::UnsupportedOperation(9))
    );
}

#[test]
fn a_binary_node_is_replaced_with_the_tables_of_its_operands() {
    let mut cx: Graph<f32> = Graph::new();
    let a = leaf(&mut cx, vec![1., 2., 3., 4.]);
    let b = leaf(&mut cx, vec![10., 20.]);
    let add = on(&mut cx, Op::Binary(BinaryKind::Add), vec![(a, &[2, 2]), (b, &[2, 1])]);
    let mut ids = vec![add];
    assert_eq!(compile_binary(&mut cx, add, &mut ids, format!("add.sierra.json")), Ok(()));
    assert_eq!(ids, vec![3]);
    assert!(!cx.has_node(add));
    match &cx.nodes[3].as_ref().unwrap().op {
        Op::Delegated(d) => {
            assert_eq!(d.program, "add.sierra.json");
            match &d.category {
                OpCategory::Binary(meta) => {
                    assert_eq!(meta.lhs_indices, vec![0, 1, 2, 3]);
                    assert_eq!(meta.rhs_indices, vec![0, 0, 1, 1]);
                }
                other => panic!("{:?}", other),
            }
        }
        other => panic!("{:?}", other),
    }
}

#[test]
fn a_multiplication_is_a_binary_node() {
    let mut cx: Graph<f32> = Graph::new();
    let a = leaf(&mut cx, vec![1., 2., 3.]);
    let b = leaf(&mut cx, vec![2.]);
    let mul = on(&mut cx, Op::Binary(BinaryKind::Mul), vec![(a, &[3]), (b, &[1])]);
    let mut ids = vec![mul, a];
    assert_eq!(compile_mul(&mut cx, mul, &mut ids, format!("mul.sierra.json")), Ok(()));
    assert_eq!(ids, vec![3, a]);
    match &cx.nodes[3].as_ref().unwrap().op {
        Op::Delegated(d) => {
            assert_eq!(d.program, "mul.sierra.json");
            match &d.category {
                OpCategory::Binary(meta) => {
                    assert_eq!(meta.lhs_indices, vec![0, 1, 2]);
                    assert_eq!(meta.rhs_indices, vec![0, 0, 0]);
                }
                other => panic!("{:?}", other),
            }
        }
        other => panic!("{:?}", other),
    }
    // one input is not enough
    let lone = on(&mut cx, Op::Binary(BinaryKind::Mul), vec![(a, &[3])]);
    assert_eq!(
        compile_mul(&mut cx, lone, &mut ids, format!("mul.sierra.json")),
        Err(CompileError::UnsupportedOperation(lone))
    );
    assert!(cx.has_node(lone));
}

#[test]
fn a_binary_node_is_refused_on_shapes_that_do_not_suit() {
    let mut cx: Graph<f32> = Graph::new();
    let a = leaf(&mut cx, vec![1., 2., 3., 4.]);
    let b = leaf(&mut cx, vec![1., 2., 3.]);
    let add = on(&mut cx, Op::Binary(BinaryKind::Add), vec![(a, &[4]), (b, &[3])]);
    let mut ids = vec![add];
    assert_eq!(
        compile_binary(&mut cx, add, &mut ids, format!("add.sierra.json")),
        Err(CompileError::Shape(add, ShapeError::BroadcastMismatch))
    );
    assert_eq!(ids, vec![add]);
    assert!(cx.has_node(add));
    assert_eq!(cx.nodes.len(), 3);
    assert_eq!(cx.edges.iter().flatten().count(), 2);
}

#[test]
fn a_reduction_is_replaced_by_the_program_of_its_rank() {
    let mut cx: Graph<f32> = Graph::new();
    let a = leaf(&mut cx, vec![1., 2., 3., 1., 2., 3.]);
    let sum = on(&mut cx, Op::SumReduce(0), vec![(a, &[2, 3])]);
    let max = on(&mut cx, Op::MaxReduce(0), vec![(sum, &[3])]);
    let mut ids = vec![sum, max];
    assert_eq!(compile_reduce(&mut cx, sum, &mut ids, false, 0), Ok(()));
    assert_eq!(compile_reduce(&mut cx, max, &mut ids, true, 0), Ok(()));
    assert_eq!(ids, vec![3, 4]);
    match &cx.nodes[3].as_ref().unwrap().op {
        Op::Delegated(d) => {
            assert_eq!(d.program, "sum_reduce_nd.sierra.json");
            match &d.category {
                OpCategory::Reduce(Some(meta)) => {
                    assert_eq!(meta.output_size, 3);
                    assert_eq!(meta.output_indices, vec![0, 1, 2, 0, 1, 2]);
                }
                other => panic!("{:?}", other),
            }
        }
        other => panic!("{:?}", other),
    }
    match &cx.nodes[4].as_ref().unwrap().op {
        Op::Delegated(d) => {
            assert_eq!(d.program, "max_reduce_1d.sierra.json");
            assert!(matches!(d.category, OpCategory::Reduce(None)));
        }
        other => panic!("{:?}", other),
    }
    let sources: Vec<usize> = cx.get_sources(4).into_iter().map(|s| s.0).collect();
    assert_eq!(sources, vec![3]);
}

#[test]
fn a_reduction_is_refused_on_an_axis_that_is_not_there() {
    let mut cx: Graph<f32> = Graph::new();
    let a = leaf(&mut cx, vec![1., 2., 3., 4.]);
    let sum = on(&mut cx, Op::SumReduce(2), vec![(a, &[2, 2])]);
    assert_eq!(
        compile_reduce(&mut cx, sum, &mut Vec::new(), false, 2),
        Err(CompileError::Shape(sum, ShapeError::AxisOutOfRange))
    );
    assert!(cx.has_node(sum));
    let none = on(&mut cx, Op::SumReduce(0), Vec::new());
    assert_eq!(
        compile_reduce(&mut cx, none, &mut Vec::new(), false, 0),
        Err(CompileError::UnsupportedOperation(none))
    );
}

#[test]
fn an_addition_run_ahead_of_time_leaves_a_node_with_the_sum() {
    let mut cx: Graph<f32> = Graph::new();
    let a = leaf(&mut cx, vec![1., 2., 3.]);
    let b = leaf(&mut cx, vec![10., 20., 30.]);
    let add = on(&mut cx, Op::Binary(BinaryKind::Add), vec![(a, &[3]), (b, &[3])]);
    let after = on(&mut cx, Op::Unary(UnaryKind::Sqrt), vec![(add, &[3])]);
    assert!(matches!(compile_add(&mut cx, add, &adder, format!("add.sierra.json")), Ok(())));
    assert!(!cx.has_node(add));
    assert!(cx.has_node(4));
    assert_eq!(cx.get_tensor(4, 0).unwrap().data, vec![11., 22., 33.]);
    let sources: Vec<usize> = cx.get_sources(after).into_iter().map(|s| s.0).collect();
    assert_eq!(sources, vec![4]);
    let sources: Vec<usize> = cx.get_sources(4).into_iter().map(|s| s.0).collect();
    assert_eq!(sources, vec![a, b]);
}

#[test]
fn an_addition_ahead_of_time_needs_two_inputs_that_hold_tensors() {
    let mut cx: Graph<f32> = Graph::new();
    let a = leaf(&mut cx, vec![1., 2., 3.]);
    let empty = cx.add_op(Op::Function(format!("Load")), &Vec::new()).unwrap();
    let lone = on(&mut cx, Op::Binary(BinaryKind::Add), vec![(a, &[3])]);
    let add = on(&mut cx, Op::Binary(BinaryKind::Add), vec![(a, &[3]), (empty, &[3])]);
    match compile_add(&mut cx, lone, &adder, format!("add.sierra.json")) {
        Err(ExecError::Op(n, OpError::Arity)) => assert_eq!(n, lone),
        other => panic!("{:?}", other),
    }
    match compile_add(&mut cx, add, &adder, format!("add.sierra.json")) {
        Err(ExecError::MissingTensor(n)) => assert_eq!(n, empty),
        other => panic!("{:?}", other),
    }
    assert!(cx.set_tensor(empty, Tensor::new(vec![1., 1., 1.])));
    match compile_add(&mut cx, add, &failing, format!("add.sierra.json")) {
        Err(ExecError::Backend(n, cause)) => {
            assert_eq!(n, add);
            assert_eq!(cause, "out of steps");
        }
        other => panic!("{:?}", other),
    }
    assert!(cx.has_node(add));
    assert_eq!(cx.nodes.len(), 4);
    assert!(matches!(compile_add(&mut cx, add, &adder, format!("add.sierra.json")), Ok(())));
    assert_eq!(cx.get_tensor(4, 0).unwrap().data, vec![2., 3., 4.]);
}
