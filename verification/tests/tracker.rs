use luminal::dim::Dim;
use luminal::dim::DynMap;
use luminal::tracker::ShapeError;
use luminal::tracker::ShapeTracker;

fn known(shape: &[usize]) -> Vec<Dim> {
    shape.iter().map(|&n| Dim::Known(n)).collect()
}

fn table(t: &ShapeTracker, env: &DynMap) -> Vec<Option<usize>> {
    let ix = t.indexer(env).unwrap();
    (0..ix.n_elements()).map(|i| ix.index(i)).collect()
}

fn all(v: &[usize]) -> Vec<Option<usize>> {
    v.iter().map(|&p| Some(p)).collect()
}

#[test]
fn a_new_tracker_is_the_identity() {
    let t = ShapeTracker::new(known(&[2, 3]));
    let env = DynMap::new();
    assert_eq!(table(&t, &env), all(&[0, 1, 2, 3, 4, 5]));
    let ix = t.indexer(&env).unwrap();
    assert_eq!(ix.n_elements(), 6);
    assert_eq!(ix.index(6), None);
    assert_eq!(ix.shape(), vec![2, 3]);
    assert_eq!(t.rank(), 2);
    assert_eq!(t.shape(), known(&[2, 3]));
}

#[test]
fn a_scalar_tracker_has_one_position() {
    let t = ShapeTracker::new(Vec::new());
    assert_eq!(table(&t, &DynMap::new()), all(&[0]));
}

#[test]
fn permute_transposes() {
    let mut t = ShapeTracker::new(known(&[2, 3]));
    assert_eq!(t.permute(&vec![1, 0]), Ok(()));
    assert_eq!(t.shape(), known(&[3, 2]));
    assert_eq!(table(&t, &DynMap::new()), all(&[0, 3, 1, 4, 2, 5]));
}

#[test]
fn permute_refuses_what_is_no_bijection() {
    let mut t = ShapeTracker::new(known(&[2, 3, 4]));
    assert_eq!(t.permute(&vec![0, 0, 1]), Err(ShapeError::NotAPermutation));
    assert_eq!(t.permute(&vec![0, 1]), Err(ShapeError::NotAPermutation));
    assert_eq!(t.permute(&vec![0, 1, 3]), Err(ShapeError::NotAPermutation));
    // the tracker is as it was
    assert_eq!(t.shape(), known(&[2, 3, 4]));
    assert_eq!(t.permute(&vec![2, 0, 1]), Ok(()));
    assert_eq!(t.shape(), known(&[4, 2, 3]));
}

#[test]
fn permute_then_its_inverse_is_the_identity() {
    let env = DynMap::new();
    let mut t = ShapeTracker::new(known(&[2, 3, 4]));
    t.slice(&vec![(0, usize::MAX), (1, 3), (0, usize::MAX)]).unwrap();
    let before = table(&t, &env);
    // p sends axis k to p[k]; q undoes it: p[q[k]] == k
    let p = vec![2, 0, 1];
    let q = vec![1, 2, 0];
    t.permute(&p).unwrap();
    assert_ne!(table(&t, &env), before);
    t.permute(&q).unwrap();
    assert_eq!(table(&t, &env), before);
}

#[test]
fn reshape_needs_the_same_element_count() {
    let mut t = ShapeTracker::new(known(&[2, 3]));
    assert_eq!(t.reshape(known(&[4, 2])), Err(ShapeError::ReshapeMismatch));
    assert_eq!(t.shape(), known(&[2, 3]));
    assert_eq!(t.reshape(known(&[3, 2])), Ok(()));
    assert_eq!(t.shape(), known(&[3, 2]));
    assert_eq!(t.reshape(known(&[6])), Ok(()));
    assert_eq!(t.reshape(known(&[7])), Err(ShapeError::ReshapeMismatch));
}

#[test]
fn reshape_and_back_keeps_the_mapping() {
    let env = DynMap::new();
    let mut t = ShapeTracker::new(known(&[2, 3, 4]));
    t.permute(&vec![1, 2, 0]).unwrap();
    let before = table(&t, &env);
    t.reshape(known(&[6, 4])).unwrap();
    assert_eq!(table(&t, &env), before);
    t.reshape(known(&[3, 4, 2])).unwrap();
    assert_eq!(table(&t, &env), before);
    assert_eq!(t.shape(), known(&[3, 4, 2]));
}

#[test]
fn reshape_of_a_transpose_reads_in_logical_order() {
    // a 3x4 buffer, transposed, read as 12x1
    let mut t = ShapeTracker::new(known(&[3, 4]));
    t.permute(&vec![1, 0]).unwrap();
    t.reshape(known(&[12, 1])).unwrap();
    assert_eq!(
        table(&t, &DynMap::new()),
        all(&[0, 4, 8, 1, 5, 9, 2, 6, 10, 3, 7, 11])
    );
}

#[test]
fn expand_repeats_along_the_new_axis() {
    let env = DynMap::new();
    let mut t = ShapeTracker::new(known(&[3]));
    assert_eq!(t.expand(1, Dim::Known(2)), Ok(()));
    assert_eq!(t.shape(), known(&[3, 2]));
    assert_eq!(table(&t, &env), all(&[0, 0, 1, 1, 2, 2]));
    let mut u = ShapeTracker::new(known(&[3]));
    assert_eq!(u.expand(0, Dim::Known(2)), Ok(()));
    assert_eq!(table(&u, &env), all(&[0, 1, 2, 0, 1, 2]));
    assert_eq!(u.expand(3, Dim::Known(2)), Err(ShapeError::AxisOutOfRange));
}

#[test]
fn every_position_of_a_broadcast_axis_reads_the_same_element() {
    let env = DynMap::new();
    let mut t = ShapeTracker::new(known(&[2, 3]));
    t.permute(&vec![1, 0]).unwrap();
    let plain = table(&t, &env);
    t.expand(1, Dim::Known(4)).unwrap();
    let ix = t.indexer(&env).unwrap();
    for a in 0..3 {
        for b in 0..2 {
            for x in 0..4 {
                assert_eq!(ix.index((a * 4 + x) * 2 + b), plain[a * 2 + b]);
            }
        }
    }
}

#[test]
fn slice_keeps_a_range() {
    let env = DynMap::new();
    let mut t = ShapeTracker::new(known(&[2, 3]));
    assert_eq!(t.slice(&vec![(1, usize::MAX), (0, usize::MAX)]), Ok(()));
    assert_eq!(t.shape(), known(&[1, 3]));
    assert_eq!(table(&t, &env), all(&[3, 4, 5]));
    let mut u = ShapeTracker::new(known(&[4, 5]));
    u.slice(&vec![(1, 3), (2, 4)]).unwrap();
    assert_eq!(u.shape(), known(&[2, 2]));
    assert_eq!(table(&u, &env), all(&[7, 8, 12, 13]));
    // a slice of a slice
    u.slice(&vec![(1, 2), (0, 1)]).unwrap();
    assert_eq!(table(&u, &env), all(&[12]));
    assert_eq!(u.slice(&vec![(0, 1)]), Err(ShapeError::RankMismatch));
}

#[test]
fn slice_clips_to_the_extent() {
    let mut t = ShapeTracker::new(known(&[3]));
    t.slice(&vec![(2, 10)]).unwrap();
    assert_eq!(t.shape(), known(&[1]));
    assert_eq!(table(&t, &DynMap::new()), all(&[2]));
    t.slice(&vec![(5, 9)]).unwrap();
    assert_eq!(t.shape(), known(&[0]));
    assert_eq!(table(&t, &DynMap::new()), Vec::<Option<usize>>::new());
}

#[test]
fn pad_adds_invalid_positions() {
    let env = DynMap::new();
    let mut t = ShapeTracker::new(known(&[2, 2]));
    assert_eq!(t.pad(&vec![(1, 0), (0, 1)]), Ok(()));
    assert_eq!(t.shape(), known(&[3, 3]));
    assert_eq!(
        table(&t, &env),
        vec![None, None, None, Some(0), Some(1), None, Some(2), Some(3), None]
    );
    // slicing into the padding
    t.slice(&vec![(0, 2), (1, 3)]).unwrap();
    assert_eq!(table(&t, &env), vec![None, None, Some(1), None]);
    assert_eq!(t.pad(&vec![(0, 0)]), Err(ShapeError::RankMismatch));
    assert_eq!(t.pad(&vec![(usize::MAX, 0), (0, 0)]), Err(ShapeError::Overflow));
}

#[test]
fn an_extent_of_zero_leaves_no_position() {
    let t = ShapeTracker::new(known(&[2, 0, 3]));
    let ix = t.indexer(&DynMap::new()).unwrap();
    assert_eq!(ix.n_elements(), 0);
    assert_eq!(ix.index(0), None);
}

#[test]
fn a_named_extent_is_resolved_from_the_bindings() {
    let mut env = DynMap::new();
    let t = ShapeTracker::new(vec![Dim::Unknown('s'), Dim::Known(2)]);
    assert_eq!(t.indexer(&env).err(), Some(ShapeError::UnresolvedDim));
    env.set('s', 3);
    assert_eq!(env.get('s'), Some(3));
    assert_eq!(env.get('t'), None);
    assert_eq!(table(&t, &env), all(&[0, 1, 2, 3, 4, 5]));
    env.set('s', 1);
    assert_eq!(env.get('s'), Some(1));
    assert_eq!(table(&t, &env), all(&[0, 1]));
    assert_eq!(env.resolve(Dim::Known(7)), Some(7));
    assert_eq!(env.resolve(Dim::Unknown('s')), Some(1));
    assert_eq!(env.resolve(Dim::Unknown('q')), None);
}

#[test]
fn a_reshape_with_a_named_extent_is_checked_when_resolved() {
    let mut env = DynMap::new();
    let mut t = ShapeTracker::new(vec![Dim::Unknown('s'), Dim::Known(2)]);
    t.permute(&vec![1, 0]).unwrap();
    assert_eq!(t.reshape(known(&[6])), Ok(()));
    env.set('s', 3);
    assert_eq!(table(&t, &env), all(&[0, 2, 4, 1, 3, 5]));
    env.set('s', 4);
    assert_eq!(t.indexer(&env).err(), Some(ShapeError::ReshapeMismatch));
}

#[test]
fn a_named_extent_cannot_be_cut_or_padded() {
    let mut t = ShapeTracker::new(vec![Dim::Unknown('s'), Dim::Known(4)]);
    assert_eq!(
        t.slice(&vec![(1, usize::MAX), (0, usize::MAX)]),
        Err(ShapeError::SymbolicExtent)
    );
    assert_eq!(t.pad(&vec![(0, 1), (0, 0)]), Err(ShapeError::SymbolicExtent));
    assert_eq!(t.slice(&vec![(0, usize::MAX), (1, 3)]), Ok(()));
    assert_eq!(t.pad(&vec![(0, 0), (1, 1)]), Ok(()));
    assert_eq!(t.shape(), vec![Dim::Unknown('s'), Dim::Known(4)]);
}

#[test]
fn numbers_that_do_not_fit_are_refused() {
    let mut t = ShapeTracker::new(known(&[usize::MAX, 2]));
    assert_eq!(t.indexer(&DynMap::new()).err(), Some(ShapeError::Overflow));
    assert_eq!(t.reshape(known(&[2])), Err(ShapeError::Overflow));
}

#[test]
fn a_copy_of_a_tracker_resolves_alike() {
    let env = DynMap::new();
    let mut t = ShapeTracker::new(known(&[2, 3]));
    t.permute(&vec![1, 0]).unwrap();
    t.reshape(known(&[6])).unwrap();
    let u = t.duplicate();
    assert_eq!(table(&t, &env), table(&u, &env));
}

#[test]
fn trackers_that_resolve_alike_are_equal_in_value() {
    let env = DynMap::new();
    let plain = ShapeTracker::new(known(&[2, 3]));
    // the same positions under another shape
    let mut flat = ShapeTracker::new(known(&[2, 3]));
    flat.reshape(known(&[6])).unwrap();
    // a transpose reads other positions
    let mut turned = ShapeTracker::new(known(&[2, 3]));
    turned.permute(&vec![1, 0]).unwrap();
    // and back again
    let mut back = turned.duplicate();
    back.permute(&vec![1, 0]).unwrap();
    // a slice has fewer positions
    let mut cut = ShapeTracker::new(known(&[2, 3]));
    cut.slice(&vec![(0, 1), (0, usize::MAX)]).unwrap();
    let of = |t: &ShapeTracker| t.indexer(&env).unwrap();
    assert!(of(&plain).agrees_with(&of(&plain)));
    assert!(of(&plain).agrees_with(&of(&flat)));
    assert!(of(&plain).agrees_with(&of(&back)));
    assert!(!of(&plain).agrees_with(&of(&turned)));
    assert!(!of(&plain).agrees_with(&of(&cut)));
    assert!(!of(&cut).agrees_with(&of(&plain)));
}

#[test]
fn a_slice_reads_what_the_positions_it_keeps_read() {
    let env = DynMap::new();
    let mut t = ShapeTracker::new(known(&[3, 4]));
    t.slice(&vec![(1, 3), (2, 4)]).unwrap();
    // position (i, j) of the slice is position (i + 1, j + 2) of the buffer
    assert_eq!(table(&t, &env), all(&[6, 7, 10, 11]));
    // a second slice starts where the first one does
    t.slice(&vec![(1, 2), (0, 1)]).unwrap();
    assert_eq!(table(&t, &env), all(&[10]));
}

#[test]
fn padding_moves_the_positions_and_reads_nothing_itself() {
    let env = DynMap::new();
    let mut t = ShapeTracker::new(known(&[2, 2]));
    t.pad(&vec![(1, 0), (0, 1)]).unwrap();
    assert_eq!(t.shape(), known(&[3, 3]));
    assert_eq!(
        table(&t, &env),
        vec![None, None, None, Some(0), Some(1), None, Some(2), Some(3), None]
    );
    // cutting the padding away gives the buffer back
    t.slice(&vec![(1, 3), (0, 2)]).unwrap();
    assert_eq!(table(&t, &env), all(&[0, 1, 2, 3]));
}
