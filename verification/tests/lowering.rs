use luminal::dim::Dim;
use luminal::graph::Graph;
use luminal::graph::Op;
use luminal::graph::OpCategory;
use luminal::kernel::Arith;
use luminal::kernel::BinaryKind;
use luminal::kernel::UnaryKind;
use luminal::lower::CompileError;
use luminal::pass::compile;
use luminal::tensor::InputTensor;
use luminal::tensor::Tensor;
use luminal::tracker::ShapeError;
use luminal::tracker::ShapeTracker;

type Unary = fn(UnaryKind, f32) -> f32;

type Binary = fn(BinaryKind, f32, f32) -> f32;

type Inputs<'a> = Vec<(InputTensor<'a, f32>, ShapeTracker)>;

fn unary(k: UnaryKind, x: f32) -> f32 {
    match k {
        UnaryKind::Log2 => x.log2(),
        UnaryKind::Exp2 => x.exp2(),
        UnaryKind::Sin => x.sin(),
        UnaryKind::Sqrt => x.sqrt(),
        UnaryKind::Recip => x.recip(),
    }
}

fn binary(k: BinaryKind, a: f32, b: f32) -> f32 {
    match k {
        BinaryKind::Add => a + b,
        BinaryKind::Mul => a * b,
        BinaryKind::Mod => a % b,
        BinaryKind::LessThan => {
            if a < b {
                1.0
            } else {
                0.0
            }
        }
        BinaryKind::Max => a.max(b),
    }
}

fn arith() -> Arith<f32, Unary, Binary> {
    Arith { zero: 0.0, lowest: f32::NEG_INFINITY, unary: unary as Unary, binary: binary as Binary }
}

/// Stands in for the outside runtime: it computes an installed operator
/// from the raw buffers of its inputs, with the tables that the pass has
/// computed, as the program of that name would.
fn runtime(op: &Op<f32>, inp: Inputs) -> Result<Vec<Tensor<f32>>, String> {
    let d = match op {
        Op::Delegated(d) => d,
        other => return Err(format!("no data for {:?}", other)),
    };
    let buffer = |k: usize| -> &Vec<f32> { &inp[k].0.borrowed().data };
    let out: Vec<f32> = match (&d.category, d.program.as_str()) {
        (OpCategory::Unary, name) => {
            let f: fn(f32) -> f32 = match name {
                "log2.sierra.json" => f32::log2,
                "exp2.sierra.json" => f32::exp2,
                "sin.sierra.json" => f32::sin,
                "sqrt.sierra.json" => f32::sqrt,
                "recip.sierra.json" => f32::recip,
                _ => return Err(format!("no program {}", name)),
            };
            buffer(0).iter().map(|&x| f(x)).collect()
        }
        (OpCategory::Binary(meta), name) => {
            let f: fn(f32, f32) -> f32 = match name {
                "add.sierra.json" => |a, b| a + b,
                "mul.sierra.json" => |a, b| a * b,
                "rem.sierra.json" => |a, b| a % b,
                "lt.sierra.json" => |a, b| if a < b { 1.0 } else { 0.0 },
                _ => return Err(format!("no program {}", name)),
            };
            meta.lhs_indices
                .iter()
                .zip(meta.rhs_indices.iter())
                .map(|(&l, &r)| f(buffer(0)[l], buffer(1)[r]))
                .collect()
        }
        (OpCategory::Reduce(None), name) => match name {
            "sum_reduce_1d.sierra.json" => vec![buffer(0).iter().sum()],
            "max_reduce_1d.sierra.json" => {
                vec![buffer(0).iter().fold(f32::NEG_INFINITY, |a, &b| a.max(b))]
            }
            _ => return Err(format!("no program {}", name)),
        },
        (OpCategory::Reduce(Some(meta)), name) => {
            let max = match name {
                "sum_reduce_nd.sierra.json" => false,
                "max_reduce_nd.sierra.json" => true,
                _ => return Err(format!("no program {}", name)),
            };
            let start = if max { f32::NEG_INFINITY } else { 0.0 };
            let mut out = vec![start; meta.output_size];
            for (n, &o) in meta.output_indices.iter().enumerate() {
                let x = buffer(0)[n];
                out[o] = if max { out[o].max(x) } else { out[o] + x };
            }
            out
        }
    };
    Ok(vec![Tensor::new(out)])
}

fn known(shape: &[usize]) -> ShapeTracker {
    ShapeTracker::new(shape.iter().map(|&n| Dim::Known(n)).collect())
}

fn assert_close(a: &[f32], b: &[f32]) {
    assert_eq!(a.len(), b.len(), "{:?} against {:?}", a, b);
    for (x, y) in a.iter().zip(b.iter()) {
        assert!((x - y).abs() < 1e-3, "{:?} against {:?}", a, b);
    }
}

fn tensor(cx: &mut Graph<f32>, data: Vec<f32>) -> usize {
    let id = cx.add_op(Op::Function(format!("Load")), &Vec::new()).unwrap();
    assert!(cx.set_tensor(id, Tensor::new(data)));
    id
}

fn node(cx: &mut Graph<f32>, op: Op<f32>, inputs: Vec<(usize, &[usize])>) -> usize {
    let list: Vec<(usize, usize, ShapeTracker)> =
        inputs.into_iter().map(|(id, shape)| (id, 0, known(shape))).collect();
    cx.add_op(op, &list).unwrap()
}

/// Retains the node, lowers the graph, runs it, and gives the data of what
/// the reference names afterwards.
fn lower_and_run(cx: &mut Graph<f32>, out: usize) -> Vec<f32> {
    cx.retain(out);
    let mut ids = vec![out];
    assert_eq!(compile(cx, &mut ids), Ok(()));
    // nothing of a kind that has a program is left
    for n in cx.nodes.iter().flatten() {
        match &n.op {
            Op::Unary(_) | Op::SumReduce(_) | Op::MaxReduce(_) => panic!("left: {:?}", n.op),
            Op::Binary(k) => assert_eq!(*k, BinaryKind::Max),
            _ => {}
        }
    }
    cx.execute(&arith(), &runtime).unwrap();
    cx.get_tensor(ids[0], 0).unwrap().data.clone()
}

fn binary_chain(kind: BinaryKind, b: [f32; 4], bias: [f32; 4]) -> Vec<f32> {
    let mut cx = Graph::new();
    let a = tensor(&mut cx, vec![1.0, 2.0, 3.0, 4.0]);
    let b = tensor(&mut cx, b.to_vec());
    let c = node(&mut cx, Op::Binary(kind), vec![(a, &[2, 2]), (b, &[2, 2])]);
    let bias = tensor(&mut cx, bias.to_vec());
    let d = node(&mut cx, Op::Binary(kind), vec![(c, &[2, 2]), (bias, &[2, 2])]);
    lower_and_run(&mut cx, d)
}

#[test]
fn binary_test_add() {
    let d = binary_chain(BinaryKind::Add, [10.0, 20.0, 30.0, 40.0], [1.0, 1.0, 1.0, 1.0]);
    assert_close(&d, &[12.0, 23.0, 34.0, 45.0])
}

#[test]
fn test_add_broadcast() {
    let mut cx = Graph::new();
    let a = tensor(&mut cx, vec![1.0, 2.0, 3.0, 4.0]);
    let b = tensor(&mut cx, vec![10.0, 20.0]);
    let c = node(&mut cx, Op::Binary(BinaryKind::Add), vec![(a, &[2, 2]), (b, &[2, 1])]);
    let bias = tensor(&mut cx, vec![1.0, 1.0, 1.0, 1.0]);
    let d = node(&mut cx, Op::Binary(BinaryKind::Add), vec![(c, &[2, 2]), (bias, &[2, 2])]);
    let d = lower_and_run(&mut cx, d);

    assert_close(&d, &[12.0, 13.0, 24.0, 25.0])
}

#[test]
fn binary_test_mul() {
    let d = binary_chain(BinaryKind::Mul, [10.0, 20.0, 30.0, 40.0], [2.0, 2.0, 2.0, 2.0]);
    assert_close(&d, &[20.0, 80.0, 180.0, 320.0])
}

#[test]
fn binary_test_mod() {
    let d = binary_chain(BinaryKind::Mod, [42.0, 42.0, 42.0, 42.0], [2.0, 2.0, 2.0, 2.0]);
    assert_close(&d, &[1.0, 0.0, 1.0, 0.0])
}

#[test]
fn test_lt() {
    let d = binary_chain(BinaryKind::LessThan, [42.0, 3.0, 1.0, 2.0], [1.0, 3.0, 10.0, 0.0]);
    assert_close(&d, &[0.0, 1.0, 1.0, 0.0])
}

#[test]
fn mod_test_add() {
    let mut cx = Graph::new();
    let a = tensor(&mut cx, vec![1.0, 2.0, 3.0, 4.0]);
    let b = tensor(&mut cx, vec![10.0, 20.0, 30.0, 40.0]);
    let c = node(&mut cx, Op::Binary(BinaryKind::Add), vec![(a, &[2, 2]), (b, &[2, 2])]);
    let c = lower_and_run(&mut cx, c);

    assert_close(&c, &[11.0, 22.0, 33.0, 44.0])
}

#[test]
fn test_sum_reduce_1d() {
    let mut cx = Graph::new();
    let a = tensor(&mut cx, vec![1.0, 2.0, 3.0, 4.0]);
    let b = node(&mut cx, Op::SumReduce(0), vec![(a, &[4])]);
    let b = lower_and_run(&mut cx, b);

    assert_close(&b, &[10.0])
}

#[test]
fn test_sum_reduce_2d() {
    let mut cx = Graph::new();
    let a = tensor(&mut cx, vec![1.0, 2.0, 3.0, 4.0]);
    let b = node(&mut cx, Op::SumReduce(1), vec![(a, &[2, 2])]);
    let b = lower_and_run(&mut cx, b);

    assert_close(&b, &[3.0, 7.0])
}

#[test]
fn test_sum_reduce_3d() {
    let mut cx = Graph::new();
    let a = tensor(&mut cx, vec![1.0, 2.0, 3.0, 4.0, 5.0, 6.0, 7.0, 8.0]);
    let b = node(&mut cx, Op::SumReduce(1), vec![(a, &[2, 2, 2])]);
    let b = lower_and_run(&mut cx, b);

    assert_close(&b, &[4.0, 6.0, 12.0, 14.0]);
}

fn unary_on_four(kind: UnaryKind) -> Vec<f32> {
    let mut cx = Graph::new();
    let a = tensor(&mut cx, vec![1.0, 2.0, 3.0, 4.0]);
    let b = node(&mut cx, Op::Unary(kind), vec![(a, &[2, 2])]);
    lower_and_run(&mut cx, b)
}

#[test]
fn unary_test_log2() {
    assert_close(&unary_on_four(UnaryKind::Log2), &[0.0, 1.0, 1.5849625, 2.0])
}

#[test]
fn unary_test_exp2() {
    assert_close(&unary_on_four(UnaryKind::Exp2), &[2., 4., 8., 16.])
}

#[test]
fn unary_test_sin() {
    assert_close(
        &unary_on_four(UnaryKind::Sin),
        &[0.84147098, 0.90929743, 0.14112001, -0.7568025],
    )
}

#[test]
fn unary_test_sqrt() {
    assert_close(&unary_on_four(UnaryKind::Sqrt), &[1., 1.41421356, 1.73205081, 2.])
}

/// Numbers between zero and one, the same at every run.
fn random_vec(n: usize) -> Vec<f32> {
    let mut state: u32 = 12345;
    (0..n)
        .map(|_| {
            state = state.wrapping_mul(1664525).wrapping_add(1013904223);
            (state >> 8) as f32 / (1u32 << 24) as f32
        })
        .collect()
}

#[test]
fn test_contiguous() {
    let mut cx = Graph::new();
    let data = random_vec(12);
    let a = tensor(&mut cx, data.clone());
    let mut shape = known(&[3, 4]);
    shape.permute(&vec![1, 0]).unwrap();
    shape.reshape(vec![Dim::Known(12), Dim::Known(1)]).unwrap();
    let b = cx.add_op(Op::Contiguous, &vec![(a, 0, shape)]).unwrap();
    let b = lower_and_run(&mut cx, b);

    let mut expected = Vec::new();
    for j in 0..4 {
        for i in 0..3 {
            expected.push(data[i * 4 + j]);
        }
    }
    assert_close(&b, &expected);
}

#[test]
fn ops_test_sum_reduce() {
    let mut cx = Graph::new();
    let data = random_vec(4 * 4096);
    let a = tensor(&mut cx, data.clone());
    cx.retain(a);
    let b = node(&mut cx, Op::SumReduce(1), vec![(a, &[1, 4, 4096])]);
    let c = node(&mut cx, Op::SumReduce(0), vec![(a, &[1, 4, 4096])]);
    let d = node(&mut cx, Op::SumReduce(2), vec![(a, &[1, 4, 4096])]);
    cx.retain(b);
    cx.retain(c);
    cx.retain(d);
    let mut ids = vec![b, c, d];
    assert_eq!(compile(&mut cx, &mut ids), Ok(()));
    cx.execute(&arith(), &runtime).unwrap();

    let mut along_1 = vec![0.0f32; 4096];
    let mut along_2 = vec![0.0f32; 4];
    for i in 0..4 {
        for j in 0..4096 {
            along_1[j] += data[i * 4096 + j];
            along_2[i] += data[i * 4096 + j];
        }
    }
    assert_close(&cx.get_tensor(ids[0], 0).unwrap().data, &along_1);
    assert_close(&cx.get_tensor(ids[1], 0).unwrap().data, &data);
    assert_close(&cx.get_tensor(ids[2], 0).unwrap().data, &along_2);
}

#[test]
fn ops_test_max_reduce() {
    let mut cx = Graph::new();
    let data = random_vec(12);
    let a = tensor(&mut cx, data.clone());
    cx.retain(a);
    let b = node(&mut cx, Op::MaxReduce(1), vec![(a, &[2, 2, 3])]);
    let c = node(&mut cx, Op::MaxReduce(0), vec![(a, &[2, 2, 3])]);
    let d = node(&mut cx, Op::MaxReduce(2), vec![(a, &[2, 2, 3])]);
    cx.retain(b);
    cx.retain(c);
    cx.retain(d);
    let mut ids = vec![b, c, d];
    assert_eq!(compile(&mut cx, &mut ids), Ok(()));
    cx.execute(&arith(), &runtime).unwrap();

    let at = |i: usize, j: usize, k: usize| data[(i * 2 + j) * 3 + k];
    let mut along_1 = Vec::new();
    let mut along_0 = Vec::new();
    let mut along_2 = Vec::new();
    for i in 0..2 {
        for k in 0..3 {
            along_1.push(at(i, 0, k).max(at(i, 1, k)));
        }
    }
    for j in 0..2 {
        for k in 0..3 {
            along_0.push(at(0, j, k).max(at(1, j, k)));
        }
    }
    for i in 0..2 {
        for j in 0..2 {
            along_2.push(at(i, j, 0).max(at(i, j, 1)).max(at(i, j, 2)));
        }
    }
    assert_close(&cx.get_tensor(ids[0], 0).unwrap().data, &along_1);
    assert_close(&cx.get_tensor(ids[1], 0).unwrap().data, &along_0);
    assert_close(&cx.get_tensor(ids[2], 0).unwrap().data, &along_2);
}

#[test]
fn test_mean_reduce() {
    // the mean along an axis is the sum times the reciprocal of the extent
    let data = random_vec(40960);
    let mut cx = Graph::new();
    let a = tensor(&mut cx, data.clone());
    let sum = node(&mut cx, Op::SumReduce(2), vec![(a, &[1, 10, 4096])]);
    let extent = node(&mut cx, Op::Constant(4096.0), Vec::new());
    let inverse = node(&mut cx, Op::Unary(UnaryKind::Recip), vec![(extent, &[1])]);
    let b = node(
        &mut cx,
        Op::Binary(BinaryKind::Mul),
        vec![(sum, &[1, 10]), (inverse, &[1])],
    );
    let b = lower_and_run(&mut cx, b);

    let expected: Vec<f32> =
        (0..10).map(|i| data[i * 4096..(i + 1) * 4096].iter().sum::<f32>() / 4096.0).collect();
    assert_close(&b, &expected);
}

#[test]
fn test_linear() {
    // a linear layer without bias: out[o] is the sum over i of weight[o][i] * a[i]
    let mut cx = Graph::new();
    let weight = tensor(
        &mut cx,
        vec![
            0.1, 0.2, 0.3, 0.4, 0.5, 0.6, 0.7, 0.8, 0.9, 1.0, 1.1, 1.2, 1.3, 1.4, 1.5, 1.6, 1.7,
            1.8, 1.9, 2.0,
        ],
    );
    let a = tensor(&mut cx, vec![1., 2., 3., 4.]);
    let products =
        node(&mut cx, Op::Binary(BinaryKind::Mul), vec![(weight, &[5, 4]), (a, &[4])]);
    let b = node(&mut cx, Op::SumReduce(1), vec![(products, &[5, 4])]);
    let b = lower_and_run(&mut cx, b);

    let expected_output: Vec<f32> = vec![3.0, 7.0, 11.0, 15.0, 19.0];

    assert_close(&b, &expected_output);
}

#[test]
fn the_pass_folds_constants_and_skips_what_has_no_program() {
    let mut cx: Graph<f32> = Graph::new();
    let load = tensor(&mut cx, vec![1., 5.]);
    let two = node(&mut cx, Op::Constant(2.0), Vec::new());
    let max = node(&mut cx, Op::Binary(BinaryKind::Max), vec![(load, &[2]), (two, &[1])]);
    let print = node(&mut cx, Op::Print(format!("here")), vec![(max, &[2])]);
    cx.retain(max);
    let mut ids = vec![load, two, max, print];
    assert_eq!(compile(&mut cx, &mut ids), Ok(()));
    // no node is replaced, and the constant holds its value
    assert_eq!(ids, vec![load, two, max, print]);
    assert_eq!(cx.nodes.len(), 4);
    assert_eq!(cx.get_tensor(two, 0).unwrap().data, vec![2.0]);
    cx.execute(&arith(), &runtime).unwrap();
    assert_eq!(cx.get_tensor(max, 0).unwrap().data, vec![2., 5.]);
}

#[test]
fn the_pass_installs_the_program_and_its_tables() {
    let mut cx: Graph<f32> = Graph::new();
    let a = tensor(&mut cx, vec![1., 2., 3., 4.]);
    let b = tensor(&mut cx, vec![1., 2.]);
    let sum = node(&mut cx, Op::Binary(BinaryKind::Add), vec![(a, &[2, 2]), (b, &[2, 1])]);
    let max = node(&mut cx, Op::MaxReduce(0), vec![(sum, &[2, 2])]);
    let one = node(&mut cx, Op::MaxReduce(0), vec![(max, &[2])]);
    let mut ids = vec![one, max, sum];
    assert_eq!(compile(&mut cx, &mut ids), Ok(()));
    assert_eq!(ids, vec![7, 6, 5]);
    for old in [sum, max, one] {
        assert!(!cx.has_node(old));
    }
    match &cx.nodes[ids[2]].as_ref().unwrap().op {
        Op::Delegated(d) => {
            assert_eq!(d.program, "add.sierra.json");
            match &d.category {
                OpCategory::Binary(meta) => {
                    assert_eq!(meta.lhs_indices, vec![0, 1, 2, 3]);
                    assert_eq!(meta.rhs_indices, vec![0, 0, 1, 1]);
                }
                other => panic!("{:?}", other),
            }
        }
        other => panic!("{:?}", other),
    }
    match &cx.nodes[ids[1]].as_ref().unwrap().op {
        Op::Delegated(d) => {
            assert_eq!(d.program, "max_reduce_nd.sierra.json");
            match &d.category {
                OpCategory::Reduce(Some(meta)) => {
                    assert_eq!(meta.output_size, 2);
                    assert_eq!(meta.output_indices, vec![0, 1, 0, 1]);
                }
                other => panic!("{:?}", other),
            }
        }
        other => panic!("{:?}", other),
    }
    match &cx.nodes[ids[0]].as_ref().unwrap().op {
        Op::Delegated(d) => {
            assert_eq!(d.program, "max_reduce_1d.sierra.json");
            assert!(matches!(d.category, OpCategory::Reduce(None)));
        }
        other => panic!("{:?}", other),
    }
    // the inputs of a replacement are those of the node that it replaced
    let sources: Vec<usize> = cx.get_sources(ids[1]).into_iter().map(|s| s.0).collect();
    assert_eq!(sources, vec![ids[2]]);
}

#[test]
fn a_pass_that_gives_up_changes_nothing() {
    let mut cx: Graph<f32> = Graph::new();
    let a = tensor(&mut cx, vec![1., 2., 3., 4.]);
    let fine = node(&mut cx, Op::Unary(UnaryKind::Sin), vec![(a, &[4])]);
    // an addition with one input
    let bad = node(&mut cx, Op::Binary(BinaryKind::Add), vec![(fine, &[4])]);
    let mut ids = vec![fine, bad];
    assert_eq!(compile(&mut cx, &mut ids), Err(CompileError::UnsupportedOperation(bad)));
    assert_eq!(ids, vec![fine, bad]);
    assert_eq!(cx.nodes.len(), 3);
    assert!(matches!(cx.nodes[fine].as_ref().unwrap().op, Op::Unary(UnaryKind::Sin)));
    assert_eq!(cx.edges.iter().flatten().count(), 2);
}

#[test]
fn a_pass_gives_up_on_shapes_that_do_not_suit() {
    let mut cx: Graph<f32> = Graph::new();
    let a = tensor(&mut cx, vec![1., 2., 3., 4.]);
    let r = node(&mut cx, Op::SumReduce(2), vec![(a, &[2, 2])]);
    assert_eq!(
        compile(&mut cx, &mut Vec::new()),
        Err(CompileError::Shape(r, ShapeError::AxisOutOfRange))
    );
    let mut cx: Graph<f32> = Graph::new();
    let a = tensor(&mut cx, vec![1., 2., 3., 4.]);
    let b = tensor(&mut cx, vec![1., 2., 3.]);
    let s = node(&mut cx, Op::Binary(BinaryKind::Mul), vec![(a, &[4]), (b, &[3])]);
    assert_eq!(
        compile(&mut cx, &mut Vec::new()),
        Err(CompileError::Shape(s, ShapeError::BroadcastMismatch))
    );
    let mut cx: Graph<f32> = Graph::new();
    let a = tensor(&mut cx, vec![1., 2.]);
    let shape = ShapeTracker::new(vec![Dim::Unknown('n')]);
    let m = cx.add_op(Op::MaxReduce(0), &vec![(a, 0, shape)]).unwrap();
    assert_eq!(
        compile(&mut cx, &mut Vec::new()),
        Err(CompileError::Shape(m, ShapeError::UnresolvedDim))
    );
    cx.set_dyn_dim('n', 2);
    assert_eq!(compile(&mut cx, &mut Vec::new()), Ok(()));
}

#[test]
fn a_pass_reports_the_first_node_that_it_cannot_handle() {
    let mut cx: Graph<f32> = Graph::new();
    let a = tensor(&mut cx, vec![1., 2., 3., 4.]);
    let first = node(&mut cx, Op::SumReduce(3), vec![(a, &[2, 2])]);
    let second = node(&mut cx, Op::Binary(BinaryKind::Add), vec![(a, &[4])]);
    let mut ids = vec![second, first];
    assert_eq!(
        compile(&mut cx, &mut ids),
        Err(CompileError::Shape(first, ShapeError::AxisOutOfRange))
    );
    assert_eq!(ids, vec![second, first]);
    assert!(cx.remove_node(first));
    assert_eq!(compile(&mut cx, &mut ids), Err(CompileError::UnsupportedOperation(second)));
}
