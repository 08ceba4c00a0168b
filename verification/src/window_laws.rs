//! What slicing and padding do to index resolution: a position that is kept
//! reads what it read before, and a position in padding reads nothing.

use crate::dim::Dim;
use crate::indexer::resolve;
use crate::indexer::resolve_axis;
use crate::indexer::tracker_index;
use crate::indexer::value_or_zero;
use crate::layout::in_bounds;
use crate::layout::join;
use crate::layout::layer_offset;
use crate::layout::lemma_coords_of_linear;
use crate::layout::lemma_layer_offset_coords;
use crate::layout::linear;
use crate::layout::offset_at;
use crate::layout::sizes;
use crate::layout::span_offset;
use crate::layout::Span;
use crate::tracker::pad_one;
use crate::tracker::pad_outcome;
use crate::tracker::slice_one;
use crate::tracker::slice_outcome;
use crate::tracker::with_top;
use crate::tracker::Axis;
use crate::tracker::LayerSpec;
use vstd::prelude::*;

verus! {

/// Two layers give the same offset to two coordinate vectors when they do so
/// axis by axis.
pub proof fn lemma_offsets_agree(a1: Seq<Span>, c1: Seq<nat>, a2: Seq<Span>, c2: Seq<nat>)
    requires
        a1.len() == a2.len(),
        c1.len() == a1.len(),
        c2.len() == a1.len(),
        forall|k: int| 0 <= k < a1.len() ==> span_offset(a1[k], c1[k]) == span_offset(a2[k], c2[k]),
    ensures
        offset_at(a1, c1) == offset_at(a2, c2),
    decreases a1.len(),
{
    if a1.len() > 0 {
        let n = a1.len() - 1;
        assert(span_offset(a1[n], c1[n]) == span_offset(a2[n], c2[n]));
        assert forall|k: int| 0 <= k < n implies span_offset(
            a1.drop_last()[k],
            c1.drop_last()[k],
        ) == span_offset(a2.drop_last()[k], c2.drop_last()[k]) by {
            assert(span_offset(a1[k], c1[k]) == span_offset(a2[k], c2[k]));
        }
        lemma_offsets_agree(a1.drop_last(), c1.drop_last(), a2.drop_last(), c2.drop_last());
    }
}

/// A coordinate vector with an invalid position along one axis has no
/// offset.
pub proof fn lemma_offset_invalid(axes: Seq<Span>, c: Seq<nat>, k: int)
    requires
        c.len() == axes.len(),
        0 <= k < axes.len(),
        span_offset(axes[k], c[k]) is None,
    ensures
        offset_at(axes, c) is None,
    decreases axes.len(),
{
    if k < axes.len() - 1 {
        lemma_offset_invalid(axes.drop_last(), c.drop_last(), k);
    }
}

/// The first position of an axis that a slice keeps.
pub open spec fn slice_start(a: Axis, range: (usize, usize)) -> nat {
    match a.dim {
        Dim::Known(n) => if range.0 < n {
            range.0 as nat
        } else {
            n as nat
        },
        Dim::Unknown(_) => 0,
    }
}

/// The coordinates, before a slice, of the position that has the
/// coordinates `c` after it.
pub open spec fn before_slice(axes: Seq<Axis>, ranges: Seq<(usize, usize)>, c: Seq<nat>) -> Seq<
    nat,
> {
    Seq::new(axes.len(), |k: int| c[k] + slice_start(axes[k], ranges[k]))
}

/// Position `c` of a sliced axis stands for position `c` past the start of
/// the slice: it lies within the axis as it was, and reads what that
/// position read.
pub proof fn lemma_slice_axis(
    a: Axis,
    range: (usize, usize),
    origin: Seq<Dim>,
    env: Map<char, usize>,
    c: nat,
)
    requires
        slice_one(a, range) is Ok,
        c < value_or_zero(slice_one(a, range)->Ok_0.dim, env),
    ensures
        c + slice_start(a, range) < value_or_zero(a.dim, env),
        span_offset(resolve_axis(slice_one(a, range)->Ok_0, origin, env), c) == span_offset(
            resolve_axis(a, origin, env),
            c + slice_start(a, range),
        ),
{
}

/// After a slice, the position with coordinates `c` resolves as the
/// position that it stands for did before.
pub proof fn lemma_slice_reads(
    m: Seq<LayerSpec>,
    ranges: Seq<(usize, usize)>,
    env: Map<char, usize>,
    c: Seq<nat>,
)
    requires
        m.len() > 0,
        slice_outcome(m.last().axes, ranges) is Ok,
        in_bounds(
            sizes(resolve(with_top(m, slice_outcome(m.last().axes, ranges)->Ok_0), env).last().axes),
            c,
        ),
    ensures
        in_bounds(sizes(resolve(m, env).last().axes), before_slice(m.last().axes, ranges, c)),
        tracker_index(
            with_top(m, slice_outcome(m.last().axes, ranges)->Ok_0),
            env,
            linear(
                sizes(
                    resolve(
                        with_top(m, slice_outcome(m.last().axes, ranges)->Ok_0),
                        env,
                    ).last().axes,
                ),
                c,
            ),
        ) == tracker_index(
            m,
            env,
            linear(sizes(resolve(m, env).last().axes), before_slice(m.last().axes, ranges, c)),
        ),
{
    let axes = m.last().axes;
    let cut = slice_outcome(axes, ranges)->Ok_0;
    let after = with_top(m, cut);
    let was = resolve(m, env);
    let now = resolve(after, env);
    let a1 = was.last().axes;
    let a2 = now.last().axes;
    let c1 = before_slice(axes, ranges, c);
    assert(now.drop_last() =~= was.drop_last());
    assert(now.last().source == was.last().source);
    assert forall|k: int| 0 <= k < axes.len() implies c1[k] < sizes(a1)[k] && span_offset(
        a2[k],
        c[k],
    ) == span_offset(a1[k], c1[k]) by {
        assert(slice_one(axes[k], ranges[k]) is Ok);
        assert(cut[k] == slice_one(axes[k], ranges[k])->Ok_0);
        assert(c[k] < sizes(a2)[k]);
        lemma_slice_axis(axes[k], ranges[k], m.last().origin, env, c[k]);
    }
    lemma_offsets_agree(a2, c, a1, c1);
    lemma_coords_of_linear(sizes(a1), c1);
    lemma_coords_of_linear(sizes(a2), c);
    lemma_layer_offset_coords(a1, linear(sizes(a1), c1));
    lemma_layer_offset_coords(a2, linear(sizes(a2), c));
}

/// Whether the position with coordinates `c`, after padding, lies outside
/// the padding that was added.
pub open spec fn off_padding(axes: Seq<Axis>, pads: Seq<(usize, usize)>, env: Map<char, usize>, c: Seq<nat>) -> bool {
    forall|k: int|
        0 <= k < axes.len() ==> pads[k].0 <= #[trigger] c[k] < pads[k].0 + value_or_zero(
            axes[k].dim,
            env,
        )
}

/// The coordinates, before padding, of the position that has the
/// coordinates `c` after it.
pub open spec fn before_pad(pads: Seq<(usize, usize)>, c: Seq<nat>) -> Seq<nat> {
    Seq::new(c.len(), |k: int| (c[k] - pads[k].0) as nat)
}

/// Position `c` of a padded axis reads nothing where it lies in the padding
/// that was added, and elsewhere what the position that it stands for read.
pub proof fn lemma_pad_axis(
    a: Axis,
    pad: (usize, usize),
    origin: Seq<Dim>,
    env: Map<char, usize>,
    c: nat,
)
    requires
        pad_one(a, pad) is Ok,
    ensures
        span_offset(resolve_axis(pad_one(a, pad)->Ok_0, origin, env), c) == (if pad.0 <= c < pad.0
            + value_or_zero(a.dim, env) {
            span_offset(resolve_axis(a, origin, env), (c - pad.0) as nat)
        } else {
            None
        }),
{
}

/// After padding, a position in the padding that was added is invalid, and
/// any other position resolves as the position that it stands for did
/// before.
pub proof fn lemma_pad_reads(
    m: Seq<LayerSpec>,
    pads: Seq<(usize, usize)>,
    env: Map<char, usize>,
    c: Seq<nat>,
)
    requires
        m.len() > 0,
        pad_outcome(m.last().axes, pads) is Ok,
        in_bounds(
            sizes(resolve(with_top(m, pad_outcome(m.last().axes, pads)->Ok_0), env).last().axes),
            c,
        ),
    ensures
        tracker_index(
            with_top(m, pad_outcome(m.last().axes, pads)->Ok_0),
            env,
            linear(
                sizes(
                    resolve(with_top(m, pad_outcome(m.last().axes, pads)->Ok_0), env).last().axes,
                ),
                c,
            ),
        ) == (if off_padding(m.last().axes, pads, env, c) {
            tracker_index(
                m,
                env,
                linear(sizes(resolve(m, env).last().axes), before_pad(pads, c)),
            )
        } else {
            None
        }),
{
    let axes = m.last().axes;
    let wide = pad_outcome(axes, pads)->Ok_0;
    let after = with_top(m, wide);
    let was = resolve(m, env);
    let now = resolve(after, env);
    let a1 = was.last().axes;
    let a2 = now.last().axes;
    let c1 = before_pad(pads, c);
    assert(now.drop_last() =~= was.drop_last());
    assert(now.last().source == was.last().source);
    lemma_coords_of_linear(sizes(a2), c);
    lemma_layer_offset_coords(a2, linear(sizes(a2), c));
    assert forall|k: int| 0 <= k < axes.len() implies span_offset(a2[k], c[k]) == (if pads[k].0
        <= c[k] < pads[k].0 + value_or_zero(axes[k].dim, env) {
        span_offset(a1[k], c1[k])
    } else {
        None
    }) by {
        assert(pad_one(axes[k], pads[k]) is Ok);
        assert(wide[k] == pad_one(axes[k], pads[k])->Ok_0);
        lemma_pad_axis(axes[k], pads[k], m.last().origin, env, c[k]);
    }
    if off_padding(axes, pads, env, c) {
        assert forall|k: int| 0 <= k < axes.len() implies c1[k] < sizes(a1)[k] && span_offset(
            a2[k],
            c[k],
        ) == span_offset(a1[k], c1[k]) by {
            assert(pads[k].0 <= c[k] < pads[k].0 + value_or_zero(axes[k].dim, env));
        }
        lemma_offsets_agree(a2, c, a1, c1);
        lemma_coords_of_linear(sizes(a1), c1);
        lemma_layer_offset_coords(a1, linear(sizes(a1), c1));
    } else {
        let k = choose|k: int|
            0 <= k < axes.len() && !(pads[k].0 <= #[trigger] c[k] < pads[k].0 + value_or_zero(
                axes[k].dim,
                env,
            ));
        assert(span_offset(a2[k], c[k]) is None);
        lemma_offset_invalid(a2, c, k);
    }
}

} // verus!
