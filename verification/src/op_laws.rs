//! Laws of the operators.

use crate::dim::Dim;
use crate::elementwise::contiguous_outcome;
use crate::elementwise::dense_read;
use crate::elementwise::OpError;
use crate::indexer::bound;
use crate::indexer::consistent;
use crate::indexer::dim_values;
use crate::indexer::fits;
use crate::indexer::layer_bound;
use crate::indexer::plane_fits;
use crate::indexer::resolve;
use crate::indexer::resolve_layer;
use crate::indexer::resolve_outcome;
use crate::layout::count;
use crate::layout::layer_offset;
use crate::layout::lemma_dense_offset;
use crate::layout::lemma_product_positive;
use crate::layout::lemma_product_skip;
use crate::layout::lemma_product_split;
use crate::layout::product;
use crate::layout::sizes;
use crate::layout::stack_index;
use crate::layout::Plane;
use crate::shape_laws::lemma_fresh_resolves_dense;
use crate::tracker::fresh_layer;
use crate::tracker::shape_of;
use crate::tracker::LayerSpec;
use vstd::prelude::*;

verus! {

/// The shape whose extents are the given numbers.
pub open spec fn known_shape(s: Seq<nat>) -> Seq<Dim> {
    Seq::new(s.len(), |k: int| Dim::Known(s[k] as usize))
}

/// The tracker of a dense buffer resolves whenever the buffer has elements
/// and their number fits the machine word.
pub proof fn lemma_dense_resolves(shape: Seq<nat>, env: Map<char, usize>)
    requires
        shape.len() <= usize::MAX,
        0 < product(shape) <= usize::MAX,
    ensures
        resolve_outcome(seq![fresh_layer(known_shape(shape))], env) is Ok,
{
    let dims = known_shape(shape);
    let m = seq![fresh_layer(dims)];
    let plane = resolve_layer(fresh_layer(dims), env);
    lemma_product_positive(shape);
    assert forall|k: int| 0 <= k < shape.len() implies 0 < #[trigger] shape[k] <= usize::MAX by {
        lemma_product_split(shape, k);
        lemma_product_skip(shape, k);
        let a = product(shape.take(k));
        let b = product(shape.skip(k + 1));
        lemma_product_positive(shape.take(k));
        lemma_product_positive(shape.skip(k + 1));
        assert(a * (shape[k] * b) >= shape[k]) by (nonlinear_arith)
            requires
                a >= 1,
                b >= 1,
        ;
    }
    assert(dim_values(dims, env) =~= shape);
    assert(bound(m, env)) by {
        assert(shape_of(fresh_layer(dims).axes) =~= dims);
        assert(layer_bound(m[0], env));
    }
    lemma_fresh_resolves_dense(dims, env);
    assert(sizes(plane.axes) =~= shape);
    assert(plane_fits(plane)) by {
        assert forall|k: int| 0 <= k < plane.axes.len() implies (#[trigger] plane.axes[k]).stride
            <= usize::MAX by {
            lemma_product_split(shape, k + 1);
            let a = product(shape.take(k + 1));
            let b = product(shape.skip(k + 1));
            lemma_product_positive(shape.take(k + 1));
            assert(b * 1 <= a * b) by (nonlinear_arith)
                requires
                    a >= 1,
                    b >= 0,
            ;
        }
    }
    assert(resolve(m, env) =~= seq![plane]);
    assert(fits(resolve(m, env)));
    assert(consistent(resolve(m, env)));
}

/// A contiguous copy is idempotent. Let `once` be the contiguous copy of a
/// tensor read through a tracker. A contiguous copy of `once`, read through
/// the tracker of a dense buffer of the same logical shape, is `once`
/// again. For a tensor without elements this holds whenever that tracker
/// resolves: its strides may exceed the machine word.
pub proof fn lemma_contiguous_idempotent<T>(
    data: Seq<T>,
    m: Seq<LayerSpec>,
    env: Map<char, usize>,
    zero: T,
)
    requires
        m.len() > 0,
        m.last().axes.len() <= usize::MAX,
        resolve_outcome(m, env) is Ok,
        count(resolve(m, env).last().axes) == 0 ==> resolve_outcome(
            seq![fresh_layer(known_shape(sizes(resolve(m, env).last().axes)))],
            env,
        ) is Ok,
    ensures
        contiguous_outcome(
            seq![
                (
                    dense_read(data, resolve(m, env), zero),
                    seq![fresh_layer(known_shape(sizes(resolve(m, env).last().axes)))],
                ),
            ],
            env,
            zero,
            Ok::<Seq<Seq<T>>, OpError>(seq![dense_read(data, resolve(m, env), zero)]),
        ),
{
    let planes = resolve(m, env);
    let once = dense_read(data, planes, zero);
    let shape = sizes(planes.last().axes);
    let dims = known_shape(shape);
    if count(planes.last().axes) > 0 {
        assert(plane_fits(planes[planes.len() - 1]));
        lemma_dense_resolves(shape, env);
    }
    let again = resolve(seq![fresh_layer(dims)], env);
    let plane = resolve_layer(fresh_layer(dims), env);
    assert(again =~= seq![plane]);
    // the extents are machine words, so the known shape has their values
    assert(planes.last() == resolve_layer(m.last(), env));
    assert(dim_values(dims, env) =~= shape) by {
        assert forall|k: int| 0 <= k < shape.len() implies dim_values(dims, env)[k]
            == shape[k] by {
            assert(shape[k] == planes.last().axes[k].size);
        }
    }
    lemma_fresh_resolves_dense(dims, env);
    assert(sizes(plane.axes) =~= shape);
    assert(count(plane.axes) == count(planes.last().axes));
    let twice = dense_read(once, again, zero);
    assert forall|i: int| 0 <= i < once.len() implies twice[i] == once[i] by {
        lemma_dense_offset(shape, 1, i as nat);
        assert(i * 1 == i) by (nonlinear_arith);
        assert(layer_offset(plane.axes, i as nat) == Some(i as nat));
        assert(again.drop_last() =~= Seq::<Plane>::empty());
        assert(stack_index(again.drop_last(), i as nat) == Some(i as nat));
        assert(stack_index(again, i as nat) == Some(i as nat));
    }
    assert(twice =~= once);
}

} // verus!
