use luminal::dim::Dim;
use luminal::graph::Graph;
use luminal::graph::GraphError;
use luminal::graph::Op;
use luminal::kernel::Arith;
use luminal::kernel::BinaryKind;
use luminal::kernel::UnaryKind;
use luminal::tensor::InputTensor;
use luminal::tensor::Tensor;
use luminal::topo::toposort;
use luminal::tracker::ShapeTracker;
use petgraph::Direction;
use luminal::builder::NewOp;

type Unary = fn(UnaryKind, f32) -> f32;

type Binary = fn(BinaryKind, f32, f32) -> f32;

type Inputs<'a> = Vec<(InputTensor<'a, f32>, ShapeTracker)>;

fn unary(k: UnaryKind, x: f32) -> f32 {
    match k {
        UnaryKind::Log2 => x.log2(),
        UnaryKind::Exp2 => x.exp2(),
        UnaryKind::Sin => x.sin(),
        UnaryKind::Sqrt => x.sqrt(),
        UnaryKind::Recip => x.recip(),
    }
}

fn binary(k: BinaryKind, a: f32, b: f32) -> f32 {
    match k {
        BinaryKind::Add => a + b,
        BinaryKind::Mul => a * b,
        BinaryKind::Mod => a % b,
        BinaryKind::LessThan => {
            if a < b {
                1.0
            } else {
                0.0
            }
        }
        BinaryKind::Max => a.max(b),
    }
}

fn arith() -> Arith<f32, Unary, Binary> {
    Arith { zero: 0.0, lowest: f32::NEG_INFINITY, unary: unary as Unary, binary: binary as Binary }
}

fn no_host(_op: &Op<f32>, _inp: Inputs) -> Result<Vec<Tensor<f32>>, String> {
    Err(format!("no host"))
}

fn known(shape: &[usize]) -> ShapeTracker {
    ShapeTracker::new(shape.iter().map(|&n| Dim::Known(n)).collect())
}

fn leaf(cx: &mut Graph<f32>, data: Vec<f32>) -> usize {
    let id = cx.add_op(Op::Function(format!("Input")), &Vec::new()).unwrap();
    assert!(cx.set_tensor(id, Tensor::new(data)));
    id
}

fn sqrt_of(cx: &mut Graph<f32>, source: usize, n: usize) -> usize {
    cx.add_op(Op::Unary(UnaryKind::Sqrt), &vec![(source, 0, known(&[n]))]).unwrap()
}

fn sources(cx: &Graph<f32>, node: usize) -> Vec<(usize, usize)> {
    cx.get_sources(node).into_iter().map(|(s, o, _)| (s, o)).collect()
}

fn position(order: &[usize], v: usize) -> usize {
    order.iter().position(|&x| x == v).unwrap()
}

#[test]
fn nodes_get_fresh_ids_and_inputs_in_order() {
    let mut cx: Graph<f32> = Graph::new();
    let a = leaf(&mut cx, vec![1.]);
    let b = leaf(&mut cx, vec![2.]);
    let c = cx
        .add_op(
            Op::Binary(BinaryKind::Add),
            &vec![(b, 0, known(&[1])), (a, 0, known(&[1]))],
        )
        .unwrap();
    assert_eq!((a, b, c), (0, 1, 2));
    assert!(cx.has_node(c));
    assert!(!cx.has_node(3));
    assert_eq!(sources(&cx, c), vec![(b, 0), (a, 0)]);
    assert_eq!(sources(&cx, a), Vec::new());
    assert_eq!(cx.edges_directed(c, Direction::Incoming), vec![0, 1]);
    assert_eq!(cx.edges_directed(a, Direction::Outgoing), vec![1]);
    assert_eq!(cx.edges_directed(a, Direction::Incoming), Vec::<usize>::new());
    assert_eq!(cx.edges_directed(9, Direction::Outgoing), Vec::<usize>::new());
}

#[test]
fn an_input_that_is_no_node_is_refused() {
    let mut cx: Graph<f32> = Graph::new();
    let a = leaf(&mut cx, vec![1.]);
    let r = cx.add_op(
        Op::Binary(BinaryKind::Add),
        &vec![(a, 0, known(&[1])), (7, 0, known(&[1]))],
    );
    assert_eq!(r, Err(GraphError::MissingNode));
    assert_eq!(cx.nodes.len(), 1);
    assert_eq!(cx.edges.len(), 0);
}

#[test]
fn an_edge_that_closes_a_cycle_is_refused() {
    let mut cx: Graph<f32> = Graph::new();
    let a = leaf(&mut cx, vec![4.]);
    let b = sqrt_of(&mut cx, a, 1);
    let c = sqrt_of(&mut cx, b, 1);
    assert_eq!(cx.add_edge(c, 0, a, known(&[1])), Err(GraphError::Cycle));
    assert_eq!(cx.add_edge(b, 0, b, known(&[1])), Err(GraphError::Cycle));
    assert_eq!(cx.add_edge(a, 0, 9, known(&[1])), Err(GraphError::MissingNode));
    assert_eq!(cx.edges.len(), 2);
    // an edge that closes none is taken, as the last input of its target
    assert_eq!(cx.add_edge(a, 0, c, known(&[1])), Ok(2));
    assert_eq!(sources(&cx, c), vec![(b, 0), (a, 0)]);
    // the graph still runs
    assert!(cx.schedule().len() == 3);
}

#[test]
fn removing_a_node_removes_its_edges() {
    let mut cx: Graph<f32> = Graph::new();
    let a = leaf(&mut cx, vec![4.]);
    let b = sqrt_of(&mut cx, a, 1);
    let c = sqrt_of(&mut cx, b, 1);
    assert!(cx.remove_node(b));
    assert!(!cx.remove_node(b));
    assert!(!cx.has_node(b));
    assert!(cx.has_node(a) && cx.has_node(c));
    assert_eq!(sources(&cx, c), Vec::new());
    assert_eq!(cx.edges_directed(a, Direction::Outgoing), Vec::<usize>::new());
    // ids are not given again
    let d = sqrt_of(&mut cx, a, 1);
    assert_eq!(d, 3);
    assert_eq!(cx.schedule().len(), 3);
}

#[test]
fn removing_an_edge_removes_an_input() {
    let mut cx: Graph<f32> = Graph::new();
    let a = leaf(&mut cx, vec![1.]);
    let b = leaf(&mut cx, vec![2.]);
    let c = cx
        .add_op(
            Op::Binary(BinaryKind::Add),
            &vec![(a, 0, known(&[1])), (b, 0, known(&[1]))],
        )
        .unwrap();
    assert!(cx.remove_edge(0));
    assert!(!cx.remove_edge(0));
    assert!(!cx.remove_edge(5));
    assert_eq!(sources(&cx, c), vec![(b, 0)]);
}

#[test]
fn a_replaced_node_hands_over_inputs_outputs_and_references() {
    let mut cx: Graph<f32> = Graph::new();
    let x = leaf(&mut cx, vec![16.]);
    let a = sqrt_of(&mut cx, x, 1);
    let y = sqrt_of(&mut cx, a, 1);
    cx.retain(a);
    let mut ids = vec![x, a, y, a];
    let new = cx.replace_node(a, Op::Unary(UnaryKind::Log2), &mut ids).unwrap();

    // the reference to the old node names the new one, and the old one is gone
    assert_eq!(ids, vec![x, new, y, new]);
    assert!(!cx.has_node(a));
    assert!(cx.has_node(new));
    assert_eq!(new, 3);
    // the new node has the inputs and the readers of the old one
    assert_eq!(sources(&cx, new), vec![(x, 0)]);
    assert_eq!(sources(&cx, y), vec![(new, 0)]);
    assert_eq!(cx.edges_directed(x, Direction::Outgoing).len(), 1);
    // and its retention mark
    assert!(cx.is_retained(new));
    // no edge dangles
    for e in cx.edges.iter().flatten() {
        assert!(cx.has_node(e.source) && cx.has_node(e.target));
    }
    cx.retain(y);
    cx.execute(&arith(), &no_host).unwrap();
    assert_eq!(cx.get_tensor(new, 0).unwrap().data, vec![4.]);
    assert_eq!(cx.get_tensor(y, 0).unwrap().data, vec![2.]);
}

#[test]
fn replacing_what_is_no_node_changes_nothing() {
    let mut cx: Graph<f32> = Graph::new();
    let x = leaf(&mut cx, vec![16.]);
    let mut ids = vec![x, 5];
    assert_eq!(
        cx.replace_node(5, Op::Contiguous, &mut ids),
        Err(GraphError::MissingNode)
    );
    assert_eq!(ids, vec![x, 5]);
    assert_eq!(cx.nodes.len(), 1);
}

#[test]
fn outgoing_edges_move_unless_they_would_close_a_cycle() {
    let mut cx: Graph<f32> = Graph::new();
    let a = leaf(&mut cx, vec![4.]);
    let b = sqrt_of(&mut cx, a, 1);
    let c = sqrt_of(&mut cx, b, 1);
    let d = leaf(&mut cx, vec![9.]);
    // moving the readers of a to c would make c read itself through b
    assert_eq!(cx.move_outgoing_edge(a, c), Err(GraphError::Cycle));
    assert_eq!(sources(&cx, b), vec![(a, 0)]);
    assert_eq!(cx.move_outgoing_edge(a, 9), Err(GraphError::MissingNode));
    assert_eq!(cx.move_outgoing_edge(a, d), Ok(()));
    assert_eq!(sources(&cx, b), vec![(d, 0)]);
    assert_eq!(sources(&cx, c), vec![(b, 0)]);
}

#[test]
fn remap_renames_references_and_passes_the_mark_on() {
    let mut cx: Graph<f32> = Graph::new();
    let a = leaf(&mut cx, vec![4.]);
    let b = leaf(&mut cx, vec![5.]);
    cx.retain(a);
    assert!(!cx.is_retained(b));
    let mut ids = vec![b, a, a];
    cx.remap(a, b, &mut ids);
    assert_eq!(ids, vec![b, b, b]);
    assert!(cx.is_retained(b));
    assert!(!cx.is_retained(9));
}

#[test]
fn the_schedule_holds_every_node_once_after_its_inputs() {
    let mut cx: Graph<f32> = Graph::new();
    let a = leaf(&mut cx, vec![4.]);
    let b = sqrt_of(&mut cx, a, 1);
    let c = sqrt_of(&mut cx, a, 1);
    let d = cx
        .add_op(
            Op::Binary(BinaryKind::Add),
            &vec![(b, 0, known(&[1])), (c, 0, known(&[1]))],
        )
        .unwrap();
    // a replacement gets an id above that of its readers
    let mut ids = Vec::new();
    let b2 = cx.replace_node(b, Op::Unary(UnaryKind::Exp2), &mut ids).unwrap();
    assert!(b2 > d);
    let order = cx.schedule();
    let mut sorted = order.clone();
    sorted.sort();
    assert_eq!(sorted, vec![a, c, d, b2]);
    for e in cx.edges.iter().flatten() {
        assert!(position(&order, e.source) < position(&order, e.target));
    }
    cx.retain(d);
    let visited = cx.execute(&arith(), &no_host).unwrap();
    assert_eq!(visited, order);
    assert_eq!(cx.get_tensor(d, 0).unwrap().data, vec![18.]);
}

#[test]
fn a_cycle_has_no_topological_order() {
    let alive = vec![true, true, true, false];
    let chain = vec![Some((0, 1)), None, Some((1, 2))];
    assert_eq!(toposort(&alive, &chain), Some(vec![0, 1, 2]));
    let backwards = vec![Some((2, 1)), Some((1, 0))];
    assert_eq!(toposort(&alive, &backwards), Some(vec![2, 1, 0]));
    let cycle = vec![Some((0, 1)), Some((1, 2)), Some((2, 0))];
    assert_eq!(toposort(&alive, &cycle), None);
    let own = vec![Some((1, 1))];
    assert_eq!(toposort(&alive, &own), None);
    assert_eq!(toposort(&Vec::new(), &Vec::new()), Some(Vec::new()));
}

#[test]
fn results_are_freed_when_nothing_will_read_them() {
    let mut cx: Graph<f32> = Graph::new();
    let a = leaf(&mut cx, vec![16.]);
    let b = sqrt_of(&mut cx, a, 1);
    let c = sqrt_of(&mut cx, b, 1);
    let kept = sqrt_of(&mut cx, a, 1);
    let d = sqrt_of(&mut cx, kept, 1);
    cx.retain(kept);
    cx.execute(&arith(), &no_host).unwrap();
    // read by others and not retained: freed
    assert!(cx.get_tensor(a, 0).is_none());
    assert!(cx.get_tensor(b, 0).is_none());
    // retained, or read by nothing: held
    assert_eq!(cx.get_tensor(kept, 0).unwrap().data, vec![4.]);
    assert_eq!(cx.get_tensor(c, 0).unwrap().data, vec![2.]);
    assert_eq!(cx.get_tensor(d, 0).unwrap().data, vec![2.]);
    assert!(cx.get_tensor(c, 1).is_none());
    assert!(cx.get_tensor(9, 0).is_none());
}

#[test]
fn results_that_a_node_holds_are_not_computed_again() {
    let mut cx: Graph<f32> = Graph::new();
    let a = leaf(&mut cx, vec![16.]);
    let b = sqrt_of(&mut cx, a, 1);
    let c = sqrt_of(&mut cx, b, 1);
    cx.retain(c);
    assert!(cx.set_tensor(b, Tensor::new(vec![100.])));
    assert!(!cx.set_tensor(9, Tensor::new(vec![100.])));
    cx.execute(&arith(), &no_host).unwrap();
    assert_eq!(cx.get_tensor(c, 0).unwrap().data, vec![10.]);
}

#[test]
fn named_extents_are_bound_in_the_graph() {
    let mut cx: Graph<f32> = Graph::new();
    let a = leaf(&mut cx, vec![1., 2., 3., 4.]);
    let shape = ShapeTracker::new(vec![Dim::Unknown('n')]);
    let b = cx.add_op(Op::SumReduce(0), &vec![(a, 0, shape)]).unwrap();
    cx.retain(a);
    cx.retain(b);
    assert!(cx.execute(&arith(), &no_host).is_err());
    cx.set_dyn_dim('n', 3);
    cx.execute(&arith(), &no_host).unwrap();
    assert_eq!(cx.get_tensor(b, 0).unwrap().data, vec![6.]);
}

#[test]
fn a_builder_attaches_its_inputs_in_order() {
    let mut cx: Graph<f32> = Graph::new();
    let a = NewOp::new(Op::Function(format!("Load"))).finish(&mut cx).unwrap();
    let b = NewOp::new(Op::Function(format!("Load"))).finish(&mut cx).unwrap();
    let sum = NewOp::new(Op::Binary(BinaryKind::Add))
        .input(b, 0, ShapeTracker::new(vec![Dim::Known(3)]))
        .input(a, 1, ShapeTracker::new(vec![Dim::Known(1)]))
        .finish(&mut cx)
        .unwrap();
    assert_eq!((a, b, sum), (0, 1, 2));
    let sources: Vec<(usize, usize, Vec<Dim>)> =
        cx.get_sources(sum).into_iter().map(|s| (s.0, s.1, s.2.shape())).collect();
    assert_eq!(sources, vec![(b, 0, vec![Dim::Known(3)]), (a, 1, vec![Dim::Known(1)])]);
    // an input that names no node is refused, and nothing is added
    let bad = NewOp::new(Op::Contiguous)
        .input(7, 0, ShapeTracker::new(vec![Dim::Known(3)]))
        .finish(&mut cx);
    assert_eq!(bad, Err(GraphError::MissingNode));
    assert_eq!(cx.nodes.len(), 3);
    assert_eq!(cx.edges.len(), 2);
}

#[test]
fn a_graph_can_be_held_to_its_invariant() {
    let mut cx: Graph<f32> = Graph::new();
    assert!(cx.is_wf());
    let a = NewOp::new(Op::Function(format!("Load"))).finish(&mut cx).unwrap();
    let b = NewOp::new(Op::Contiguous)
        .input(a, 0, ShapeTracker::new(vec![Dim::Known(1)]))
        .finish(&mut cx)
        .unwrap();
    assert!(cx.is_wf());
    // the fields are open: an edge written by hand may dangle, or close a cycle
    cx.edges.push(Some(luminal::graph::Edge {
        source: b,
        output: 0,
        target: a,
        shape: ShapeTracker::new(vec![Dim::Known(1)]),
    }));
    assert!(!cx.is_wf());
    cx.edges.pop();
    assert!(cx.is_wf());
    cx.edges.push(Some(luminal::graph::Edge {
        source: 9,
        output: 0,
        target: a,
        shape: ShapeTracker::new(vec![Dim::Known(1)]),
    }));
    assert!(!cx.is_wf());
    cx.edges.pop();
    cx.nodes[a] = None;
    assert!(!cx.is_wf());
}
