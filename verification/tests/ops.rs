use luminal::dim::Dim;
use luminal::dim::DynMap;
use luminal::elementwise::OpError;
use luminal::engine::ExecError;
use luminal::graph::Graph;
use luminal::graph::Op;
use luminal::kernel::Arith;
use luminal::kernel::BinaryKind;
use luminal::kernel::UnaryKind;
use luminal::op::Add;
use luminal::op::Constant;
use luminal::op::Contiguous;
use luminal::op::Exp2;
use luminal::op::Function;
use luminal::op::LessThan;
use luminal::op::Log2;
use luminal::op::Max;
use luminal::op::MaxReduce;
use luminal::op::Mod;
use luminal::op::Mul;
use luminal::op::Operator;
use luminal::op::Print;
use luminal::op::Recip;
use luminal::op::Sin;
use luminal::op::Sqrt;
use luminal::op::SumReduce;
use luminal::tensor::InputTensor;
use luminal::tensor::Tensor;
use luminal::tracker::ShapeError;
use luminal::tracker::ShapeTracker;

type Unary = fn(UnaryKind, f32) -> f32;

type Binary = fn(BinaryKind, f32, f32) -> f32;

type Inputs<'a> = Vec<(InputTensor<'a, f32>, ShapeTracker)>;

fn unary(k: UnaryKind, x: f32) -> f32 {
    match k {
        UnaryKind::Log2 => x.log2(),
        UnaryKind::Exp2 => x.exp2(),
        UnaryKind::Sin => x.sin(),
        UnaryKind::Sqrt => x.sqrt(),
        UnaryKind::Recip => x.recip(),
    }
}

fn binary(k: BinaryKind, a: f32, b: f32) -> f32 {
    match k {
        BinaryKind::Add => a + b,
        BinaryKind::Mul => a * b,
        BinaryKind::Mod => a % b,
        BinaryKind::LessThan => {
            if a < b {
                1.0
            } else {
                0.0
            }
        }
        BinaryKind::Max => a.max(b),
    }
}

fn arith() -> Arith<f32, Unary, Binary> {
    Arith { zero: 0.0, lowest: f32::NEG_INFINITY, unary: unary as Unary, binary: binary as Binary }
}

fn no_host(_op: &Op<f32>, _inp: Inputs) -> Result<Vec<Tensor<f32>>, String> {
    Err(format!("no host"))
}

fn known(shape: &[usize]) -> ShapeTracker {
    ShapeTracker::new(shape.iter().map(|&n| Dim::Known(n)).collect())
}

fn assert_close(a: &[f32], b: &[f32]) {
    assert_eq!(a.len(), b.len(), "{:?} against {:?}", a, b);
    for (x, y) in a.iter().zip(b.iter()) {
        assert!((x - y).abs() < 1e-3, "{:?} against {:?}", a, b);
    }
}

/// A leaf that holds `data`.
fn input(cx: &mut Graph<f32>, data: Vec<f32>) -> usize {
    let id = cx.add_op(Op::Function(format!("Input")), &Vec::new()).unwrap();
    assert!(cx.set_tensor(id, Tensor::new(data)));
    id
}

/// A node with operator `op` on the given inputs, retained.
fn apply(cx: &mut Graph<f32>, op: Op<f32>, inputs: Vec<(usize, ShapeTracker)>) -> usize {
    let list: Vec<(usize, usize, ShapeTracker)> =
        inputs.into_iter().map(|(id, shape)| (id, 0, shape)).collect();
    let id = cx.add_op(op, &list).unwrap();
    cx.retain(id);
    id
}

/// A dense copy of node `id` read through `shape`, retained.
fn view(cx: &mut Graph<f32>, id: usize, shape: ShapeTracker) -> usize {
    apply(cx, Op::Contiguous, vec![(id, shape)])
}

fn run(cx: &mut Graph<f32>) {
    let order = cx.execute(&arith(), &no_host).unwrap();
    assert_eq!(order.len(), cx.nodes.iter().filter(|n| n.is_some()).count());
}

fn data(cx: &Graph<f32>, id: usize) -> Vec<f32> {
    cx.get_tensor(id, 0).unwrap().data.clone()
}

// Movement op tests

#[test]
fn test_reshape() {
    let mut cx = Graph::new();
    let a = input(&mut cx, vec![1., 2., 3., 1., 2., 3.]);
    let mut shape = known(&[2, 3]);
    shape.reshape(vec![Dim::Known(6)]).unwrap();
    let b = view(&mut cx, a, shape);
    run(&mut cx);

    assert_close(&data(&cx, b), &[1., 2., 3., 1., 2., 3.]);
}

#[test]
fn test_permute() {
    let mut cx = Graph::new();
    let a = input(&mut cx, vec![1., 2., 3., 1., 2., 3.]);
    let mut shape = known(&[2, 3]);
    shape.permute(&vec![1, 0]).unwrap();
    let b = view(&mut cx, a, shape);
    run(&mut cx);

    assert_close(&data(&cx, b), &[1., 1., 2., 2., 3., 3.]);
}

#[test]
fn test_expand() {
    let mut cx = Graph::new();
    let a = input(&mut cx, vec![1., 2., 3.]);
    let mut shape = known(&[3]);
    shape.expand(1, Dim::Known(2)).unwrap();
    let b = view(&mut cx, a, shape);
    run(&mut cx);

    assert_close(&data(&cx, b), &[1., 1., 2., 2., 3., 3.]);
}

#[test]
fn test_slice() {
    let mut cx = Graph::new();
    let a = input(&mut cx, vec![1., 2., 3., 1., 2., 3.]);
    let mut shape = known(&[2, 3]);
    shape.slice(&vec![(1, usize::MAX), (0, usize::MAX)]).unwrap();
    let b = view(&mut cx, a, shape);
    run(&mut cx);

    assert_close(&data(&cx, b), &[1., 2., 3.]);
}

// Unary op tests

#[test]
fn op_test_log2() {
    let mut cx = Graph::new();
    let a = input(&mut cx, vec![1., 2., 3.]);
    let b = apply(&mut cx, Op::Unary(UnaryKind::Log2), vec![(a, known(&[3]))]);
    run(&mut cx);

    assert_close(
        &data(&cx, b),
        &vec![1., 2., 3.].into_iter().map(|i: f32| i.log2()).collect::<Vec<_>>(),
    );
}

#[test]
fn op_test_exp2() {
    let mut cx = Graph::new();
    let a = input(&mut cx, vec![1., 2., 3.]);
    let b = apply(&mut cx, Op::Unary(UnaryKind::Exp2), vec![(a, known(&[3]))]);
    run(&mut cx);

    assert_close(
        &data(&cx, b),
        &vec![1., 2., 3.].into_iter().map(|i: f32| i.exp2()).collect::<Vec<_>>(),
    );
}

#[test]
fn test_recip() {
    let mut cx = Graph::new();
    let a = input(&mut cx, vec![1., 2., 3.]);
    let b = apply(&mut cx, Op::Unary(UnaryKind::Recip), vec![(a, known(&[3]))]);
    run(&mut cx);

    assert_close(&data(&cx, b), &[1., 0.5, 1. / 3.]);
}

#[test]
fn op_test_sin() {
    let mut cx = Graph::new();
    let a = input(&mut cx, vec![1., 2., 3.]);
    let b = apply(&mut cx, Op::Unary(UnaryKind::Sin), vec![(a, known(&[3]))]);
    run(&mut cx);

    assert_close(&data(&cx, b), &[0.84147098, 0.90929743, 0.14112001]);
}

#[test]
fn op_test_sqrt() {
    let mut cx = Graph::new();
    let a = input(&mut cx, vec![1., 2., 3.]);
    let b = apply(&mut cx, Op::Unary(UnaryKind::Sqrt), vec![(a, known(&[3]))]);
    run(&mut cx);

    assert_close(&data(&cx, b), &[1., 1.41421356, 1.73205081]);
}

// Binary op tests

#[test]
fn op_test_add() {
    let mut cx = Graph::new();
    let a = input(&mut cx, vec![1., 2., 3.]);
    let b = input(&mut cx, vec![1., 2., 3.]);
    let c = apply(
        &mut cx,
        Op::Binary(BinaryKind::Add),
        vec![(a, known(&[3])), (b, known(&[3]))],
    );
    run(&mut cx);

    assert_close(&data(&cx, c), &[2., 4., 6.]);
}

#[test]
fn test_sub() {
    // a - b is a + b * -1
    let mut cx = Graph::new();
    let a = input(&mut cx, vec![1., 2., 3.]);
    let b = input(&mut cx, vec![1., 2., 3.]);
    let minus = apply(&mut cx, Op::Constant(-1.), Vec::new());
    let negated = apply(
        &mut cx,
        Op::Binary(BinaryKind::Mul),
        vec![(b, known(&[3])), (minus, known(&[1]))],
    );
    let c = apply(
        &mut cx,
        Op::Binary(BinaryKind::Add),
        vec![(a, known(&[3])), (negated, known(&[3]))],
    );
    run(&mut cx);

    assert_close(&data(&cx, c), &[0., 0., 0.]);
}

#[test]
fn op_test_mul() {
    let mut cx = Graph::new();
    let a = input(&mut cx, vec![1., 2., 3.]);
    let b = input(&mut cx, vec![1., 2., 3.]);
    let c = apply(
        &mut cx,
        Op::Binary(BinaryKind::Mul),
        vec![(a, known(&[3])), (b, known(&[3]))],
    );
    run(&mut cx);

    assert_close(&data(&cx, c), &[1., 4., 9.]);
}

#[test]
fn test_permute_mul() {
    let mut cx = Graph::new();
    let a = input(&mut cx, vec![1., 2., 3., 2., 3., 1.]);
    let b = input(&mut cx, vec![1., 2., 3., -1., 3., 0.]);
    let mut sa = known(&[3, 2]);
    sa.expand(2, Dim::Known(3)).unwrap();
    let mut sb = known(&[3, 2]);
    sb.expand(2, Dim::Known(3)).unwrap();
    let c = apply(&mut cx, Op::Binary(BinaryKind::Mul), vec![(a, sa), (b, sb)]);
    run(&mut cx);

    assert_close(
        &data(&cx, c),
        &[1., 1., 1., 4., 4., 4., 9., 9., 9., -2., -2., -2., 9., 9., 9., 0., 0., 0.],
    );
}

#[test]
fn test_div() {
    // a / b is a * recip(b)
    let mut cx = Graph::new();
    let a = input(&mut cx, vec![1., 2., 3.]);
    let b = input(&mut cx, vec![1., 2., 3.]);
    let inverse = apply(&mut cx, Op::Unary(UnaryKind::Recip), vec![(b, known(&[3]))]);
    let c = apply(
        &mut cx,
        Op::Binary(BinaryKind::Mul),
        vec![(a, known(&[3])), (inverse, known(&[3]))],
    );
    run(&mut cx);

    assert_close(&data(&cx, c), &[1., 1., 1.]);
}

#[test]
fn test_max() {
    let mut cx = Graph::new();
    let a = input(&mut cx, vec![1., 0., 3.]);
    let b = input(&mut cx, vec![1., 2., -2.]);
    let c = apply(
        &mut cx,
        Op::Binary(BinaryKind::Max),
        vec![(a, known(&[3])), (b, known(&[3]))],
    );
    run(&mut cx);

    assert_close(&data(&cx, c), &[1., 2., 3.]);
}

#[test]
fn op_test_mod() {
    let mut cx = Graph::new();
    let a = input(&mut cx, vec![1., 2., 3.]);
    let b = input(&mut cx, vec![1., 2., 3.]);
    let c = apply(
        &mut cx,
        Op::Binary(BinaryKind::Mod),
        vec![(a, known(&[3])), (b, known(&[3]))],
    );
    run(&mut cx);

    assert_close(
        &data(&cx, c),
        &[1., 2., 3.]
            .into_iter()
            .zip([1., 2., 3.])
            .map(|(a, b): (f32, f32)| a % b)
            .collect::<Vec<_>>(),
    );
}

// Reduction op tests

#[test]
fn op_test_sum_reduce() {
    let mut cx = Graph::new();
    let a = input(&mut cx, vec![1., 2., 3., 1., 2., 3., 1., 2., 3., 1., 2., 3.]);
    let b = apply(&mut cx, Op::SumReduce(1), vec![(a, known(&[2, 2, 3]))]);
    let c = apply(&mut cx, Op::SumReduce(0), vec![(a, known(&[2, 2, 3]))]);
    let d = apply(&mut cx, Op::SumReduce(2), vec![(a, known(&[2, 2, 3]))]);
    run(&mut cx);

    assert_close(&data(&cx, b), &[2., 4., 6., 2., 4., 6.]);
    assert_close(&data(&cx, c), &[2., 4., 6., 2., 4., 6.]);
    assert_close(&data(&cx, d), &[6., 6., 6., 6.]);
}

#[test]
fn test_sum_reduce2() {
    let mut cx = Graph::new();
    let a = input(
        &mut cx,
        vec![34.4, -96.0, 144.0, 43.0, 560.0, 180.0, 39.6, -120.0, 180.0, 49.5, 700.0, 225.0],
    );
    let b = apply(&mut cx, Op::SumReduce(3), vec![(a, known(&[1, 2, 2, 3]))]);
    run(&mut cx);

    assert_close(&data(&cx, b), &[82.4, 783.0, 99.6, 974.5]);
}

#[test]
fn op_test_max_reduce() {
    let mut cx = Graph::new();
    let a = input(&mut cx, vec![1., 2., 3., 1., 2., 3., 1., 2., 3., 1., 2., 3.]);
    let b = apply(&mut cx, Op::MaxReduce(1), vec![(a, known(&[2, 2, 3]))]);
    let c = apply(&mut cx, Op::MaxReduce(0), vec![(a, known(&[2, 2, 3]))]);
    let d = apply(&mut cx, Op::MaxReduce(2), vec![(a, known(&[2, 2, 3]))]);
    run(&mut cx);

    assert_close(&data(&cx, b), &[1., 2., 3., 1., 2., 3.]);
    assert_close(&data(&cx, c), &[1., 2., 3., 1., 2., 3.]);
    assert_close(&data(&cx, d), &[3., 3., 3., 3.]);
}

// The operators on their own

fn one<'a>(t: &'a Tensor<f32>, shape: ShapeTracker) -> Inputs<'a> {
    vec![(InputTensor::Borrowed(t), shape)]
}

fn two<'a>(
    a: &'a Tensor<f32>,
    sa: ShapeTracker,
    b: &'a Tensor<f32>,
    sb: ShapeTracker,
) -> Inputs<'a> {
    vec![(InputTensor::Borrowed(a), sa), (InputTensor::Borrowed(b), sb)]
}

fn first(out: Result<Vec<Tensor<f32>>, OpError>) -> Vec<f32> {
    let mut v = out.unwrap();
    assert_eq!(v.len(), 1);
    v.remove(0).data
}

#[test]
fn binary_broadcast_adds_a_column_to_every_column() {
    let a = Tensor::new(vec![1., 2., 3., 4.]);
    let b = Tensor::new(vec![10., 20.]);
    let env = DynMap::new();
    let out = Add.process(two(&a, known(&[2, 2]), &b, known(&[2, 1])), &env, &arith());
    assert_close(&first(out), &[11., 12., 23., 24.]);
    // the shorter shape is aligned at the right
    let row = Tensor::new(vec![10., 20.]);
    let out = Add.process(two(&a, known(&[2, 2]), &row, known(&[2])), &env, &arith());
    assert_close(&first(out), &[11., 22., 13., 24.]);
    let out = Mul.process(two(&row, known(&[2]), &a, known(&[2, 2])), &env, &arith());
    assert_close(&first(out), &[10., 40., 30., 80.]);
}

#[test]
fn binary_shapes_that_do_not_broadcast_are_refused() {
    let a = Tensor::new(vec![1., 2., 3., 4., 5., 6.]);
    let b = Tensor::new(vec![1., 2.]);
    let env = DynMap::new();
    let out = Add.process(two(&a, known(&[2, 3]), &b, known(&[2])), &env, &arith());
    assert_eq!(out.err(), Some(OpError::Shape(ShapeError::BroadcastMismatch)));
}

#[test]
fn reduce_sums_and_maxima_by_axis() {
    let a = Tensor::new(vec![1., 2., 3., 1., 2., 3.]);
    let env = DynMap::new();
    let sum = SumReduce(0).process(one(&a, known(&[2, 3])), &env, &arith());
    assert_close(&first(sum), &[2., 4., 6.]);
    let max = MaxReduce(1).process(one(&a, known(&[2, 3])), &env, &arith());
    assert_close(&first(max), &[3., 3.]);
    let bad = SumReduce(2).process(one(&a, known(&[2, 3])), &env, &arith());
    assert_eq!(bad.err(), Some(OpError::Shape(ShapeError::AxisOutOfRange)));
}

#[test]
fn reduce_skips_invalid_positions() {
    let a = Tensor::new(vec![1., 2., 3., 4.]);
    let env = DynMap::new();
    let mut shape = known(&[2, 2]);
    shape.pad(&vec![(0, 0), (1, 1)]).unwrap();
    let sum = SumReduce(1).process(one(&a, shape.duplicate()), &env, &arith());
    assert_close(&first(sum), &[3., 7.]);
    let mut neg = Tensor::new(vec![-1., -2., -3., -4.]);
    let max = MaxReduce(1).process(one(&neg, shape.duplicate()), &env, &arith());
    assert_close(&first(max), &[-1., -3.]);
    // an axis without positions folds to the identity
    neg.data.clear();
    let none = MaxReduce(1).process(one(&neg, known(&[2, 0])), &env, &arith());
    assert_eq!(first(none), vec![f32::NEG_INFINITY, f32::NEG_INFINITY]);
    let none = SumReduce(1).process(one(&neg, known(&[2, 0])), &env, &arith());
    assert_eq!(first(none), vec![0., 0.]);
}

#[test]
fn invalid_positions_read_as_zero() {
    let a = Tensor::new(vec![1., 2.]);
    let env = DynMap::new();
    let mut shape = known(&[2]);
    shape.pad(&vec![(1, 1)]).unwrap();
    let out = Contiguous.process(one(&a, shape.duplicate()), &env, &arith());
    assert_eq!(first(out), vec![0., 1., 2., 0.]);
    let out = Exp2.process(one(&a, shape.duplicate()), &env, &arith());
    assert_close(&first(out), &[1., 2., 4., 1.]);
    let b = Tensor::new(vec![5., 5., 5., 5.]);
    let out = Add.process(two(&a, shape.duplicate(), &b, known(&[4])), &env, &arith());
    assert_close(&first(out), &[5., 6., 7., 5.]);
    // a buffer that is too short reads as zero where it ends
    let short = Tensor::new(vec![1.]);
    let out = Contiguous.process(one(&short, known(&[3])), &env, &arith());
    assert_eq!(first(out), vec![1., 0., 0.]);
}

#[test]
fn contiguous_twice_is_contiguous_once() {
    let a = Tensor::new(vec![1., 2., 3., 4., 5., 6.]);
    let env = DynMap::new();
    let mut shape = known(&[2, 3]);
    shape.permute(&vec![1, 0]).unwrap();
    shape.pad(&vec![(0, 1), (0, 0)]).unwrap();
    let once = Tensor::new(first(Contiguous.process(one(&a, shape), &env, &arith())));
    assert_eq!(once.data, vec![1., 4., 2., 5., 3., 6., 0., 0.]);
    let twice = first(Contiguous.process(one(&once, known(&[4, 2])), &env, &arith()));
    assert_eq!(twice, once.data);
}

#[test]
fn unary_operators_apply_their_function() {
    let a = Tensor::new(vec![1., 4.]);
    let env = DynMap::new();
    assert_close(&first(Log2.process(one(&a, known(&[2])), &env, &arith())), &[0., 2.]);
    assert_close(&first(Exp2.process(one(&a, known(&[2])), &env, &arith())), &[2., 16.]);
    assert_close(&first(Sqrt.process(one(&a, known(&[2])), &env, &arith())), &[1., 2.]);
    assert_close(&first(Recip.process(one(&a, known(&[2])), &env, &arith())), &[1., 0.25]);
    assert_close(
        &first(Sin.process(one(&a, known(&[2])), &env, &arith())),
        &[0.84147098, -0.7568025],
    );
    // the tracker is honoured
    let mut shape = known(&[2]);
    shape.expand(0, Dim::Known(2)).unwrap();
    assert_close(&first(Sqrt.process(one(&a, shape), &env, &arith())), &[1., 2., 1., 2.]);
}

#[test]
fn binary_operators_apply_their_function() {
    let a = Tensor::new(vec![1., 5.]);
    let b = Tensor::new(vec![3., 2.]);
    let env = DynMap::new();
    let go = |kind: usize| -> Vec<f32> {
        let inp = two(&a, known(&[2]), &b, known(&[2]));
        first(match kind {
            0 => Add.process(inp, &env, &arith()),
            1 => Mul.process(inp, &env, &arith()),
            2 => Mod.process(inp, &env, &arith()),
            3 => LessThan.process(inp, &env, &arith()),
            _ => Max.process(inp, &env, &arith()),
        })
    };
    assert_close(&go(0), &[4., 7.]);
    assert_close(&go(1), &[3., 10.]);
    assert_close(&go(2), &[1., 1.]);
    assert_close(&go(3), &[1., 0.]);
    assert_close(&go(4), &[3., 5.]);
}

#[test]
fn the_wrong_number_of_inputs_is_refused() {
    let a = Tensor::new(vec![1., 2.]);
    let env = DynMap::new();
    assert_eq!(
        Add.process(one(&a, known(&[2])), &env, &arith()).err(),
        Some(OpError::Arity)
    );
    assert_eq!(
        Log2.process(two(&a, known(&[2]), &a, known(&[2])), &env, &arith()).err(),
        Some(OpError::Arity)
    );
    assert_eq!(SumReduce(0).process(Vec::new(), &env, &arith()).err(), Some(OpError::Arity));
    assert_eq!(Contiguous.process(Vec::new(), &env, &arith()).err(), Some(OpError::Arity));
    assert_eq!(
        Constant(1.0f32).process(one(&a, known(&[2])), &env, &arith()).err(),
        Some(OpError::Arity)
    );
}

#[test]
fn a_shape_that_does_not_resolve_is_refused() {
    let a = Tensor::new(vec![1., 2.]);
    let mut env = DynMap::new();
    let shape = || ShapeTracker::new(vec![Dim::Unknown('n')]);
    assert_eq!(
        Sin.process(one(&a, shape()), &env, &arith()).err(),
        Some(OpError::Shape(ShapeError::UnresolvedDim))
    );
    assert_eq!(
        SumReduce(0).process(one(&a, shape()), &env, &arith()).err(),
        Some(OpError::Shape(ShapeError::UnresolvedDim))
    );
    env.set('n', 2);
    assert_close(&first(SumReduce(0).process(one(&a, shape()), &env, &arith())), &[3.]);
}

#[test]
fn constant_function_and_print() {
    let env = DynMap::new();
    let out = Constant(2.5f32).process(Vec::new(), &env, &arith());
    assert_eq!(first(out), vec![2.5]);
    let a = Tensor::new(vec![1., 2.]);
    let double = Function(format!("double"), |inp: Inputs| -> Vec<Tensor<f32>> {
        vec![Tensor::new(inp[0].0.borrowed().data.iter().map(|x| x * 2.).collect())]
    });
    let out = double.process(one(&a, known(&[2])), &env, &arith());
    assert_eq!(first(out), vec![2., 4.]);
    let out = Print(format!("here")).process(one(&a, known(&[2])), &env, &arith());
    assert_eq!(first(out), Vec::<f32>::new());
}

#[test]
fn input_tensors_are_read_or_kept() {
    let a = Tensor::new(vec![1., 2.]);
    let borrowed = InputTensor::Borrowed(&a);
    assert_eq!(borrowed.borrowed().data, vec![1., 2.]);
    assert_eq!(borrowed.cloned().data, vec![1., 2.]);
    let owned = InputTensor::Owned(Tensor::new(vec![3.]));
    assert_eq!(owned.borrowed().data, vec![3.]);
    assert_eq!(owned.cloned().data, vec![3.]);
    assert_eq!(a.duplicate().data, a.data);
}

#[test]
fn a_missing_output_abandons_the_execution() {
    let mut cx: Graph<f32> = Graph::new();
    let a = input(&mut cx, vec![1., 2.]);
    // output 1 of the leaf does not exist
    let b = cx
        .add_op(Op::Unary(UnaryKind::Sin), &vec![(a, 1, known(&[2]))])
        .unwrap();
    match cx.execute(&arith(), &no_host) {
        Err(ExecError::MissingTensor(s)) => assert_eq!(s, a),
        other => panic!("{:?}", other),
    }
    assert!(cx.get_tensor(b, 0).is_none());
}

#[test]
fn a_failing_operator_abandons_the_execution() {
    let mut cx: Graph<f32> = Graph::new();
    let a = input(&mut cx, vec![1., 2.]);
    let b = apply(&mut cx, Op::SumReduce(3), vec![(a, known(&[2]))]);
    match cx.execute(&arith(), &no_host) {
        Err(ExecError::Op(v, e)) => {
            assert_eq!(v, b);
            assert_eq!(e, OpError::Shape(ShapeError::AxisOutOfRange));
        }
        other => panic!("{:?}", other),
    }
}

#[test]
fn a_failing_host_is_reported_with_its_cause() {
    let mut cx: Graph<f32> = Graph::new();
    // a leaf without data is handed to the host
    let a = cx.add_op(Op::Function(format!("Load")), &Vec::new()).unwrap();
    match cx.execute(&arith(), &no_host) {
        Err(ExecError::Backend(v, cause)) => {
            assert_eq!(v, a);
            assert_eq!(cause, "no host");
        }
        other => panic!("{:?}", other),
    }
}

type Host = for<'a> fn(Inputs<'a>) -> Vec<Tensor<f32>>;

fn first_of(inp: Inputs) -> Vec<Tensor<f32>> {
    inp.into_iter().take(1).map(|(t, _)| t.cloned()).collect()
}

fn none_of(_inp: Inputs) -> Vec<Tensor<f32>> {
    Vec::new()
}

#[test]
fn opaque_functions_are_compared_by_name() {
    let a = Function(format!("load"), first_of as Host);
    let b = Function(format!("load"), none_of as Host);
    let c = Function(format!("store"), first_of as Host);
    assert!(a == b);
    assert!(a != c);
}
