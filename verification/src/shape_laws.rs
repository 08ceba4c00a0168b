//! What the shape operations do to index resolution: the laws that relate a
//! tracker before and after an operation.

use crate::dim::Dim;
use crate::indexer::dim_values;
use crate::indexer::resolve;
use crate::indexer::resolve_layer;
use crate::indexer::resolve_outcome;
use crate::indexer::tracker_index;
use crate::indexer::value_or_zero;
use crate::layout::count;
use crate::layout::dense;
use crate::layout::in_bounds;
use crate::layout::join;
use crate::layout::layer_offset;
use crate::layout::lemma_coords_of_linear;
use crate::layout::lemma_dense_offset;
use crate::layout::lemma_layer_offset_coords;
use crate::layout::linear;
use crate::layout::offset_at;
use crate::layout::product;
use crate::layout::sizes;
use crate::layout::span_offset;
use crate::layout::stack_index;
use crate::layout::Span;
use crate::tracker::fresh_layer;
use crate::tracker::is_inverse;
use crate::tracker::is_permutation;
use crate::tracker::model_expand;
use crate::tracker::model_permute;
use crate::tracker::model_reshape;
use crate::tracker::permuted;
use crate::tracker::shape_of;
use crate::tracker::LayerSpec;
use vstd::prelude::*;

verus! {

/// Permuting the axes by `p` and then by a permutation `q` that undoes `p`
/// gives the tracker back, so every logical index resolves as it did before.
pub proof fn lemma_permute_inverse(m: Seq<LayerSpec>, p: Seq<usize>, q: Seq<usize>)
    requires
        m.len() > 0,
        is_permutation(p, m.last().axes.len()),
        is_inverse(p, q),
    ensures
        model_permute(model_permute(m, p), q) == m,
        forall|env: Map<char, usize>, i: nat|
            tracker_index(model_permute(model_permute(m, p), q), env, i) == tracker_index(
                m,
                env,
                i,
            ),
{
    let axes = m.last().axes;
    let once = model_permute(m, p);
    let twice = model_permute(once, q);
    assert(once.last().axes == permuted(axes, p));
    assert(permuted(permuted(axes, p), q) =~= axes) by {
        assert forall|k: int| 0 <= k < axes.len() implies permuted(permuted(axes, p), q)[k]
            == axes[k] by {
            assert(p[q[k] as int] == k);
        }
    }
    assert(once.drop_last() =~= m.drop_last());
    assert(twice =~= m);
}

/// The extents of a resolved layer are the values of its logical shape.
pub proof fn lemma_resolved_sizes(l: LayerSpec, env: Map<char, usize>)
    ensures
        sizes(resolve_layer(l, env).axes) == dim_values(shape_of(l.axes), env),
        count(resolve_layer(l, env).axes) == product(dim_values(shape_of(l.axes), env)),
{
    assert(sizes(resolve_layer(l, env).axes) =~= dim_values(shape_of(l.axes), env));
}

/// A fresh layer resolves to the dense layer over the values of its shape.
pub proof fn lemma_fresh_resolves_dense(shape: Seq<Dim>, env: Map<char, usize>)
    requires
        shape.len() <= usize::MAX,
    ensures
        resolve_layer(fresh_layer(shape), env).axes == dense(dim_values(shape, env), 1),
        resolve_layer(fresh_layer(shape), env).source == product(dim_values(shape, env)),
{
    let vals = dim_values(shape, env);
    let got = resolve_layer(fresh_layer(shape), env).axes;
    let want = dense(vals, 1);
    assert forall|k: int| 0 <= k < shape.len() implies got[k] == want[k] by {
        let y = product(vals.skip(k + 1));
        assert(y * 1 == y) by (nonlinear_arith);
        assert(fresh_layer(shape).axes[k].src == k);
    }
    assert(got =~= want);
}

/// Reshaping to a new shape and then back to the shape that the tracker had
/// reproduces the index mapping exactly, whenever the result resolves.
pub proof fn lemma_reshape_round_trip(
    m: Seq<LayerSpec>,
    shape: Seq<Dim>,
    env: Map<char, usize>,
    i: nat,
)
    requires
        m.len() > 0,
        shape.len() <= usize::MAX,
        m.last().axes.len() <= usize::MAX,
        resolve_outcome(
            model_reshape(model_reshape(m, shape), shape_of(m.last().axes)),
            env,
        ) is Ok,
    ensures
        tracker_index(
            model_reshape(model_reshape(m, shape), shape_of(m.last().axes)),
            env,
            i,
        ) == tracker_index(m, env, i),
{
    let old_shape = shape_of(m.last().axes);
    let there = model_reshape(m, shape);
    let back = model_reshape(there, old_shape);
    let base = resolve(m, env);
    let mid = resolve(there, env);
    let all = resolve(back, env);
    let inner = resolve_layer(fresh_layer(shape), env);
    let outer = resolve_layer(fresh_layer(old_shape), env);
    assert(mid =~= base.push(inner));
    assert(all =~= mid.push(outer));
    assert(all.drop_last() =~= mid);
    assert(mid.drop_last() =~= base);
    lemma_fresh_resolves_dense(shape, env);
    lemma_fresh_resolves_dense(old_shape, env);
    lemma_resolved_sizes(m.last(), env);
    let n = product(dim_values(old_shape, env));
    let top = base.last();
    assert(top == resolve_layer(m.last(), env));
    assert(count(top.axes) == n);
    // the two sides of each reshape agree
    assert(all[all.len() - 1] == outer);
    assert(all[all.len() - 2] == inner);
    assert(all[all.len() - 3] == top);
    assert(outer.source == count(inner.axes));
    assert(inner.source == count(top.axes));
    if i < n {
        lemma_dense_offset(dim_values(old_shape, env), 1, i);
        assert(count(outer.axes) == n);
        assert(i * 1 == i) by (nonlinear_arith);
        assert(layer_offset(outer.axes, i) == Some(i));
        assert(outer.source == n);
        assert(count(inner.axes) == n);
        assert(product(dim_values(shape, env)) == n) by {
            assert(sizes(inner.axes) =~= dim_values(shape, env));
        }
        lemma_dense_offset(dim_values(shape, env), 1, i);
        assert(layer_offset(inner.axes, i) == Some(i));
        assert(stack_index(all, i) == stack_index(mid, i));
        assert(stack_index(mid, i) == stack_index(base, i));
    } else {
        assert(sizes(outer.axes) =~= dim_values(old_shape, env));
        assert(count(outer.axes) == n);
        assert(stack_index(all, i) is None);
        assert(stack_index(base, i) is None);
    }
}

/// Inserting an axis that contributes nothing, and a coordinate for it,
/// leaves the offset of a coordinate vector as it was.
pub proof fn lemma_offset_insert(axes: Seq<Span>, c: Seq<nat>, k: int, f: Span, x: nat)
    requires
        c.len() == axes.len(),
        0 <= k <= axes.len(),
        span_offset(f, x) == Some(0nat),
    ensures
        offset_at(axes.insert(k, f), c.insert(k, x)) == offset_at(axes, c),
    decreases axes.len(),
{
    let a2 = axes.insert(k, f);
    let c2 = c.insert(k, x);
    if k == axes.len() {
        assert(a2.drop_last() =~= axes);
        assert(c2.drop_last() =~= c);
        assert(a2.last() == f);
        assert(c2.last() == x);
        match offset_at(axes, c) {
            Some(v) => {
                assert(join(Some(v), Some(0nat)) == Some(v));
            },
            None => {},
        }
    } else {
        assert(a2.drop_last() =~= axes.drop_last().insert(k, f));
        assert(c2.drop_last() =~= c.drop_last().insert(k, x));
        assert(a2.last() == axes.last());
        assert(c2.last() == c.last());
        lemma_offset_insert(axes.drop_last(), c.drop_last(), k, f, x);
    }
}

/// The broadcast invariant. After an axis has been inserted by `expand`,
/// the position with coordinate `x` along the new axis and coordinates `c`
/// along the others resolves as the position with coordinates `c` did
/// before: every position along the new axis reads the same element.
pub proof fn lemma_expand_broadcast(
    m: Seq<LayerSpec>,
    axis: int,
    size: Dim,
    env: Map<char, usize>,
    c: Seq<nat>,
    x: nat,
)
    requires
        m.len() > 0,
        0 <= axis <= m.last().axes.len(),
        in_bounds(sizes(resolve(m, env).last().axes), c),
        x < value_or_zero(size, env),
    ensures
        tracker_index(
            model_expand(m, axis, size),
            env,
            linear(
                sizes(resolve(model_expand(m, axis, size), env).last().axes),
                c.insert(axis, x),
            ),
        ) == tracker_index(m, env, linear(sizes(resolve(m, env).last().axes), c)),
{
    let e = model_expand(m, axis, size);
    let before = resolve(m, env);
    let after = resolve(e, env);
    let a = before.last().axes;
    let a2 = after.last().axes;
    let f = Span {
        size: value_or_zero(size, env),
        stride: 0,
        fake: true,
        start: 0,
        pad_left: 0,
        pad_right: 0,
    };
    assert(a2 =~= a.insert(axis, f));
    assert(after.drop_last() =~= before.drop_last());
    assert(after.last().source == before.last().source);
    let c2 = c.insert(axis, x);
    assert(sizes(a2) =~= sizes(a).insert(axis, f.size));
    assert(in_bounds(sizes(a2), c2)) by {
        assert forall|k: int| 0 <= k < sizes(a2).len() implies c2[k] < sizes(a2)[k] by {
            if k < axis {
                assert(c2[k] == c[k]);
            } else if k > axis {
                assert(c2[k] == c[k - 1]);
                assert(sizes(a2)[k] == sizes(a)[k - 1]);
            }
        }
    }
    let lin = linear(sizes(a), c);
    let lin2 = linear(sizes(a2), c2);
    lemma_coords_of_linear(sizes(a), c);
    lemma_coords_of_linear(sizes(a2), c2);
    lemma_layer_offset_coords(a, lin);
    lemma_layer_offset_coords(a2, lin2);
    lemma_offset_insert(a, c, axis, f, x);
    assert(layer_offset(a2, lin2) == layer_offset(a, lin));
}

} // verus!
