//! The shape tracker: a description of how the logical positions of a tensor
//! map to the elements of the buffer behind it, kept as a stack of strided
//! layers and changed without touching the buffer.

use crate::dim::Dim;
use vstd::prelude::*;

verus! {

/// Why a shape operation or an index resolution was refused.
#[derive(Clone, Copy, Debug, PartialEq, Eq, Structural)]
pub enum ShapeError {
    /// An axis number is not below the rank.
    AxisOutOfRange,
    /// A per-axis argument list does not have one entry per axis.
    RankMismatch,
    /// The argument of a permutation is not a bijection on the axes.
    NotAPermutation,
    /// The element counts on the two sides of a reshape differ.
    ReshapeMismatch,
    /// Two extents cannot be broadcast against each other.
    BroadcastMismatch,
    /// The operation needs the number behind a named extent.
    SymbolicExtent,
    /// A named extent has no value at the time an index is resolved.
    UnresolvedDim,
    /// An element count, extent or stride does not fit the machine word.
    Overflow,
}

/// One axis of a layer.
///
/// `dim` is the logical extent. Position `c` of the axis is valid when
/// `pad_left <= c` and `c + pad_right < dim`; it then stands for coordinate
/// `c - pad_left + start` along axis `src` of the shape that the layer was
/// created with. A fake axis stands for no source axis: every valid position
/// of it reads the same element.
#[derive(Clone, Copy, Debug, PartialEq, Eq, Structural)]
pub struct Axis {
    pub dim: Dim,
    pub src: usize,
    pub fake: bool,
    pub start: usize,
    pub pad_left: usize,
    pub pad_right: usize,
}

/// One layer of shape history: the shape it was created with, which fixes
/// its strides, and its axes as they are now.
#[derive(Debug)]
pub struct Layer {
    pub origin: Vec<Dim>,
    pub axes: Vec<Axis>,
}

/// The mathematical content of a [`Layer`].
pub ghost struct LayerSpec {
    pub origin: Seq<Dim>,
    pub axes: Seq<Axis>,
}

impl View for Layer {
    type V = LayerSpec;

    open spec fn view(&self) -> LayerSpec {
        LayerSpec { origin: self.origin@, axes: self.axes@ }
    }
}

/// A stack of layers. The top layer gives the logical shape; each layer
/// below it is read through the one above, and the bottom layer reads the
/// buffer.
///
/// Its view is the sequence of layers from the bottom to the top, which is
/// never empty.
#[derive(Debug)]
pub struct ShapeTracker {
    pub below: Vec<Layer>,
    pub top: Layer,
}

impl View for ShapeTracker {
    type V = Seq<LayerSpec>;

    open spec fn view(&self) -> Seq<LayerSpec> {
        self.below@.map_values(|l: Layer| l@).push(self.top@)
    }
}

/// The axis that a freshly created layer has at position `k`.
pub open spec fn fresh_axis(d: Dim, k: int) -> Axis {
    Axis { dim: d, src: k as usize, fake: false, start: 0, pad_left: 0, pad_right: 0 }
}

/// A broadcast axis of the given extent.
pub open spec fn fake_axis(d: Dim) -> Axis {
    Axis { dim: d, src: 0, fake: true, start: 0, pad_left: 0, pad_right: 0 }
}

/// The dense row-major layer over a shape.
pub open spec fn fresh_layer(shape: Seq<Dim>) -> LayerSpec {
    LayerSpec { origin: shape, axes: Seq::new(shape.len(), |k: int| fresh_axis(shape[k], k)) }
}

/// The logical shape that a sequence of axes has.
pub open spec fn shape_of(axes: Seq<Axis>) -> Seq<Dim> {
    axes.map_values(|a: Axis| a.dim)
}

/// The stack with the axes of its top layer replaced.
pub open spec fn with_top(m: Seq<LayerSpec>, axes: Seq<Axis>) -> Seq<LayerSpec> {
    m.drop_last().push(LayerSpec { origin: m.last().origin, axes })
}

/// Whether `p` names every axis below `n` exactly once.
pub open spec fn is_permutation(p: Seq<usize>, n: nat) -> bool {
    &&& p.len() == n
    &&& forall|i: int| 0 <= i < p.len() ==> p[i] < n
    &&& forall|i: int, j: int| 0 <= i < j < p.len() ==> p[i] != p[j]
}

/// The sequence whose position `k` holds what `s` holds at `p[k]`.
pub open spec fn permuted<A>(s: Seq<A>, p: Seq<usize>) -> Seq<A> {
    Seq::new(p.len(), |k: int| s[p[k] as int])
}

/// Whether every extent is a number.
pub open spec fn all_known(dims: Seq<Dim>) -> bool {
    forall|k: int| 0 <= k < dims.len() ==> dims[k] is Known
}

/// The numbers of a shape whose extents are all known.
pub open spec fn known_values(dims: Seq<Dim>) -> Seq<nat> {
    dims.map_values(
        |d: Dim|
            match d {
                Dim::Known(n) => n as nat,
                Dim::Unknown(_) => 0nat,
            },
    )
}

/// The result of permuting the axes of the top layer.
pub open spec fn model_permute(m: Seq<LayerSpec>, p: Seq<usize>) -> Seq<LayerSpec> {
    with_top(m, permuted(m.last().axes, p))
}

/// The result of a reshape: a dense layer over the new shape on top.
pub open spec fn model_reshape(m: Seq<LayerSpec>, shape: Seq<Dim>) -> Seq<LayerSpec> {
    m.push(fresh_layer(shape))
}

/// The result of inserting a broadcast axis at position `axis`.
pub open spec fn model_expand(m: Seq<LayerSpec>, axis: int, size: Dim) -> Seq<LayerSpec> {
    with_top(m, m.last().axes.insert(axis, fake_axis(size)))
}

impl Layer {
    /// The dense row-major layer over `shape`.
    pub fn fresh(shape: Vec<Dim>) -> (r: Layer)
        ensures
            r@ == fresh_layer(shape@),
    {
        let mut axes: Vec<Axis> = Vec::new();
        let mut k: usize = 0;
        while k < shape.len()
            invariant
                k <= shape.len(),
                axes.len() == k,
                forall|j: int| 0 <= j < k ==> axes[j] == fresh_axis(shape[j], j),
            decreases shape.len() - k,
        {
            axes.push(
                Axis { dim: shape[k], src: k, fake: false, start: 0, pad_left: 0, pad_right: 0 },
            );
            k += 1;
        }
        assert(axes@ =~= fresh_layer(shape@).axes);
        Layer { origin: shape, axes }
    }

    /// A copy of the layer.
    pub fn duplicate(&self) -> (r: Layer)
        ensures
            r@ == self@,
    {
        let origin = copy_dims(&self.origin);
        let mut axes: Vec<Axis> = Vec::new();
        let mut k: usize = 0;
        while k < self.axes.len()
            invariant
                k <= self.axes.len(),
                axes.len() == k,
                forall|j: int| 0 <= j < k ==> axes[j] == self.axes[j],
            decreases self.axes.len() - k,
        {
            axes.push(self.axes[k]);
            k += 1;
        }
        assert(axes@ =~= self.axes@);
        assert(origin@ == self.origin@);
        Layer { origin, axes }
    }
}

/// A copy of a list of extents.
pub fn copy_dims(dims: &Vec<Dim>) -> (r: Vec<Dim>)
    ensures
        r@ == dims@,
{
    let mut out: Vec<Dim> = Vec::new();
    let mut k: usize = 0;
    while k < dims.len()
        invariant
            k <= dims.len(),
            out.len() == k,
            forall|j: int| 0 <= j < k ==> out[j] == dims[j],
        decreases dims.len() - k,
    {
        out.push(dims[k]);
        k += 1;
    }
    assert(out@ =~= dims@);
    out
}

/// The numbers of a list of extents, if every extent is known.
pub fn known_sizes(dims: &Vec<Dim>) -> (r: Option<Vec<usize>>)
    ensures
        match r {
            Some(v) => all_known(dims@) && crate::layout::nats(v@) == known_values(dims@),
            None => !all_known(dims@),
        },
{
    let mut out: Vec<usize> = Vec::new();
    let mut k: usize = 0;
    while k < dims.len()
        invariant
            k <= dims.len(),
            out.len() == k,
            forall|j: int| 0 <= j < k ==> #[trigger] dims[j] == Dim::Known(out[j]),
        decreases dims.len() - k,
    {
        match dims[k] {
            Dim::Known(n) => {
                out.push(n);
            },
            Dim::Unknown(_) => {
                return None;
            },
        }
        k += 1;
    }
    assert(crate::layout::nats(out@) =~= known_values(dims@));
    Some(out)
}

/// Whether `perm` names every axis below `n` exactly once.
pub fn check_permutation(perm: &Vec<usize>, n: usize) -> (r: bool)
    ensures
        r == is_permutation(perm@, n as nat),
{
    if perm.len() != n {
        return false;
    }
    let mut seen: Vec<bool> = Vec::new();
    let mut k: usize = 0;
    while k < n
        invariant
            k <= n,
            seen.len() == k,
            forall|v: int| 0 <= v < k ==> !seen[v],
        decreases n - k,
    {
        seen.push(false);
        k += 1;
    }
    let mut i: usize = 0;
    while i < n
        invariant
            i <= n,
            perm.len() == n,
            seen.len() == n,
            forall|j: int| 0 <= j < i ==> perm[j] < n && seen[perm[j] as int],
            forall|v: int| 0 <= v < n && seen[v] ==> exists|j: int| 0 <= j < i && perm[j] == v,
            forall|j: int, l: int| 0 <= j < l < i ==> perm[j] != perm[l],
        decreases n - i,
    {
        let v: usize = perm[i];
        if v >= n {
            return false;
        }
        if seen[v] {
            proof {
                let j = choose|j: int| 0 <= j < i && perm[j] == v;
                assert(perm[j] == perm[i as int]);
            }
            return false;
        }
        seen.set(v, true);
        i += 1;
    }
    true
}

/// Whether `q` undoes `p`: both are permutations of the same axes, and `p`
/// sends `q[k]` to `k`.
pub open spec fn is_inverse(p: Seq<usize>, q: Seq<usize>) -> bool {
    &&& is_permutation(p, p.len())
    &&& is_permutation(q, p.len())
    &&& forall|k: int| 0 <= k < q.len() ==> p[#[trigger] q[k] as int] == k
}

/// The outcome of asking for a reshape from the shape `cur` to the shape
/// `new`. When both shapes are known the element counts are compared at
/// once; a shape with a named extent is accepted, and compared when an index
/// is resolved.
pub open spec fn reshape_outcome(cur: Seq<Dim>, new: Seq<Dim>) -> Result<(), ShapeError> {
    if all_known(cur) && all_known(new) {
        let a = crate::layout::product(known_values(cur));
        let b = crate::layout::product(known_values(new));
        if a > usize::MAX || b > usize::MAX {
            Err(ShapeError::Overflow)
        } else if a != b {
            Err(ShapeError::ReshapeMismatch)
        } else {
            Ok(())
        }
    } else {
        Ok(())
    }
}

/// Whether a range leaves an axis as it is.
pub open spec fn full_range(range: (usize, usize)) -> bool {
    range.0 == 0 && range.1 == usize::MAX
}

/// How far a slice that starts at `lo` moves the start of an axis of extent
/// `n`: by the part of the cut that reaches past the left padding.
pub open spec fn slice_shift(a: Axis, n: usize, lo: usize) -> int {
    let s = if lo < n { lo } else { n };
    if s > a.pad_left {
        s - a.pad_left
    } else {
        0
    }
}

/// The extent of an axis of extent `n` after a slice from `lo` to `hi`, and
/// the positions of the result, from the first to before the second, that
/// are valid.
pub open spec fn slice_window(a: Axis, n: usize, lo: usize, hi: usize) -> (int, int, int) {
    let s = if lo < n { lo } else { n };
    let e0 = if hi < n { hi } else { n };
    let e = if e0 < s { s } else { e0 };
    let n2 = e - s;
    let old_hi = if a.pad_right < n { n - a.pad_right } else { 0 };
    let lo0 = if a.pad_left > s { a.pad_left - s } else { 0 };
    let new_lo = if lo0 < n2 { lo0 } else { n2 };
    let hi0 = if old_hi > s { old_hi - s } else { 0 };
    let hi1 = if hi0 < n2 { hi0 } else { n2 };
    let new_hi = if hi1 < new_lo { new_lo } else { hi1 };
    (n2, new_lo, new_hi)
}

/// The axis of known extent `n` restricted to the positions from `lo` up to,
/// but not including, `hi`; both ends are clipped to the extent.
pub open spec fn slice_axis(a: Axis, n: usize, lo: usize, hi: usize) -> Axis {
    let (n2, new_lo, new_hi) = slice_window(a, n, lo, hi);
    Axis {
        dim: Dim::Known(n2 as usize),
        src: a.src,
        fake: a.fake,
        start: if new_lo < new_hi {
            (a.start + slice_shift(a, n, lo)) as usize
        } else {
            0
        },
        pad_left: new_lo as usize,
        pad_right: (n2 - new_hi) as usize,
    }
}

/// Whether the start of the sliced axis fits the machine word; the start of
/// an axis without valid positions is not looked at.
pub open spec fn slice_fits(a: Axis, n: usize, lo: usize, hi: usize) -> bool {
    let (n2, new_lo, new_hi) = slice_window(a, n, lo, hi);
    new_lo >= new_hi || a.start + slice_shift(a, n, lo) <= usize::MAX
}

/// What a slice makes of one axis, or why it is refused.
pub open spec fn slice_one(a: Axis, range: (usize, usize)) -> Result<Axis, ShapeError> {
    match a.dim {
        Dim::Known(n) => if slice_fits(a, n, range.0, range.1) {
            Ok(slice_axis(a, n, range.0, range.1))
        } else {
            Err(ShapeError::Overflow)
        },
        Dim::Unknown(_) => if full_range(range) {
            Ok(a)
        } else {
            Err(ShapeError::SymbolicExtent)
        },
    }
}

/// What a slice makes of the axes of a layer, or why it is refused: a wrong
/// number of ranges first, then a range that cuts a named extent, then a
/// start that does not fit the machine word.
pub open spec fn slice_outcome(axes: Seq<Axis>, ranges: Seq<(usize, usize)>) -> Result<
    Seq<Axis>,
    ShapeError,
> {
    if ranges.len() != axes.len() {
        Err(ShapeError::RankMismatch)
    } else if exists|k: int|
        0 <= k < axes.len() && slice_one(axes[k], ranges[k]) == Err::<Axis, ShapeError>(
            ShapeError::SymbolicExtent,
        ) {
        Err(ShapeError::SymbolicExtent)
    } else if exists|k: int| 0 <= k < axes.len() && slice_one(axes[k], ranges[k]) is Err {
        Err(ShapeError::Overflow)
    } else {
        Ok(Seq::new(axes.len(), |k: int| slice_one(axes[k], ranges[k])->Ok_0))
    }
}

/// The axis of known extent `n` with `left` invalid positions put before it
/// and `right` after it.
pub open spec fn pad_axis(a: Axis, n: usize, left: usize, right: usize) -> Axis {
    Axis {
        dim: Dim::Known((n + left + right) as usize),
        src: a.src,
        fake: a.fake,
        start: a.start,
        pad_left: (a.pad_left + left) as usize,
        pad_right: (a.pad_right + right) as usize,
    }
}

/// What padding makes of one axis, or why it is refused.
pub open spec fn pad_one(a: Axis, pad: (usize, usize)) -> Result<Axis, ShapeError> {
    match a.dim {
        Dim::Known(n) => if n + pad.0 + pad.1 <= usize::MAX && a.pad_left + pad.0 <= usize::MAX
            && a.pad_right + pad.1 <= usize::MAX {
            Ok(pad_axis(a, n, pad.0, pad.1))
        } else {
            Err(ShapeError::Overflow)
        },
        Dim::Unknown(_) => if pad.0 == 0 && pad.1 == 0 {
            Ok(a)
        } else {
            Err(ShapeError::SymbolicExtent)
        },
    }
}

/// What padding makes of the axes of a layer, or why it is refused, in the
/// order of [`slice_outcome`].
pub open spec fn pad_outcome(axes: Seq<Axis>, pads: Seq<(usize, usize)>) -> Result<
    Seq<Axis>,
    ShapeError,
> {
    if pads.len() != axes.len() {
        Err(ShapeError::RankMismatch)
    } else if exists|k: int|
        0 <= k < axes.len() && pad_one(axes[k], pads[k]) == Err::<Axis, ShapeError>(
            ShapeError::SymbolicExtent,
        ) {
        Err(ShapeError::SymbolicExtent)
    } else if exists|k: int| 0 <= k < axes.len() && pad_one(axes[k], pads[k]) is Err {
        Err(ShapeError::Overflow)
    } else {
        Ok(Seq::new(axes.len(), |k: int| pad_one(axes[k], pads[k])->Ok_0))
    }
}

/// Restricts one axis to a range.
pub fn slice_axis_exec(a: Axis, range: (usize, usize)) -> (r: Result<Axis, ShapeError>)
    ensures
        r == slice_one(a, range),
{
    match a.dim {
        Dim::Known(n) => {
            let s: usize = if range.0 < n { range.0 } else { n };
            let e0: usize = if range.1 < n { range.1 } else { n };
            let e: usize = if e0 < s { s } else { e0 };
            let n2: usize = e - s;
            let old_hi: usize = if a.pad_right < n { n - a.pad_right } else { 0 };
            let lo0: usize = if a.pad_left > s { a.pad_left - s } else { 0 };
            let new_lo: usize = if lo0 < n2 { lo0 } else { n2 };
            let hi0: usize = if old_hi > s { old_hi - s } else { 0 };
            let hi1: usize = if hi0 < n2 { hi0 } else { n2 };
            let new_hi: usize = if hi1 < new_lo { new_lo } else { hi1 };
            let shift: usize = if s > a.pad_left { s - a.pad_left } else { 0 };
            let start: usize = if new_lo < new_hi {
                match a.start.checked_add(shift) {
                    Some(v) => v,
                    None => {
                        return Err(ShapeError::Overflow);
                    },
                }
            } else {
                0
            };
            Ok(
                Axis {
                    dim: Dim::Known(n2),
                    src: a.src,
                    fake: a.fake,
                    start,
                    pad_left: new_lo,
                    pad_right: n2 - new_hi,
                },
            )
        },
        Dim::Unknown(_) => {
            if range.0 == 0 && range.1 == usize::MAX {
                Ok(a)
            } else {
                Err(ShapeError::SymbolicExtent)
            }
        },
    }
}

/// Pads one axis.
pub fn pad_axis_exec(a: Axis, pad: (usize, usize)) -> (r: Result<Axis, ShapeError>)
    ensures
        r == pad_one(a, pad),
{
    match a.dim {
        Dim::Known(n) => {
            let size = match n.checked_add(pad.0) {
                Some(v) => v.checked_add(pad.1),
                None => None,
            };
            match (size, a.pad_left.checked_add(pad.0), a.pad_right.checked_add(pad.1)) {
                (Some(n2), Some(pl), Some(pr)) => Ok(
                    Axis {
                        dim: Dim::Known(n2),
                        src: a.src,
                        fake: a.fake,
                        start: a.start,
                        pad_left: pl,
                        pad_right: pr,
                    },
                ),
                _ => Err(ShapeError::Overflow),
            }
        },
        Dim::Unknown(_) => {
            if pad.0 == 0 && pad.1 == 0 {
                Ok(a)
            } else {
                Err(ShapeError::SymbolicExtent)
            }
        },
    }
}

impl ShapeTracker {
    /// The tracker of a dense buffer of the given shape.
    pub fn new(shape: Vec<Dim>) -> (r: ShapeTracker)
        ensures
            r@ == seq![fresh_layer(shape@)],
    {
        let r = ShapeTracker { below: Vec::new(), top: Layer::fresh(shape) };
        assert(r@ =~= seq![fresh_layer(shape@)]);
        r
    }

    /// A copy of the tracker.
    pub fn duplicate(&self) -> (r: ShapeTracker)
        ensures
            r@ == self@,
    {
        let mut below: Vec<Layer> = Vec::new();
        let mut k: usize = 0;
        while k < self.below.len()
            invariant
                k <= self.below.len(),
                below.len() == k,
                forall|j: int| 0 <= j < k ==> below[j]@ == self.below[j]@,
            decreases self.below.len() - k,
        {
            below.push(self.below[k].duplicate());
            k += 1;
        }
        let r = ShapeTracker { below, top: self.top.duplicate() };
        assert(r@ =~= self@);
        r
    }

    /// The number of axes of the logical shape.
    pub fn rank(&self) -> (r: usize)
        ensures
            r == self@.last().axes.len(),
    {
        self.top.axes.len()
    }

    /// The logical shape.
    pub fn shape(&self) -> (r: Vec<Dim>)
        ensures
            r@ == shape_of(self@.last().axes),
    {
        let mut out: Vec<Dim> = Vec::new();
        let mut k: usize = 0;
        while k < self.top.axes.len()
            invariant
                k <= self.top.axes.len(),
                out.len() == k,
                forall|j: int| 0 <= j < k ==> out[j] == self.top.axes[j].dim,
            decreases self.top.axes.len() - k,
        {
            out.push(self.top.axes[k].dim);
            k += 1;
        }
        assert(out@ =~= shape_of(self@.last().axes));
        out
    }

    /// Reorders the axes: axis `k` of the result is axis `perm[k]` of the
    /// tracker as it was. Refused, with the tracker unchanged, unless `perm`
    /// names every axis exactly once.
    pub fn permute(&mut self, perm: &Vec<usize>) -> (r: Result<(), ShapeError>)
        ensures
            match r {
                Ok(_) => is_permutation(perm@, old(self)@.last().axes.len())
                    && final(self)@ == model_permute(old(self)@, perm@),
                Err(e) => e == ShapeError::NotAPermutation && !is_permutation(
                    perm@,
                    old(self)@.last().axes.len(),
                ) && final(self)@ == old(self)@,
            },
    {
        let n: usize = self.top.axes.len();
        if !check_permutation(perm, n) {
            return Err(ShapeError::NotAPermutation);
        }
        let mut axes: Vec<Axis> = Vec::new();
        let mut k: usize = 0;
        while k < n
            invariant
                k <= n,
                n == self.top.axes.len(),
                is_permutation(perm@, n as nat),
                axes.len() == k,
                forall|j: int| 0 <= j < k ==> axes[j] == self.top.axes[perm[j] as int],
            decreases n - k,
        {
            axes.push(self.top.axes[perm[k]]);
            k += 1;
        }
        assert(axes@ =~= permuted(self.top.axes@, perm@));
        self.top.axes = axes;
        assert(self@ =~= model_permute(old(self)@, perm@));
        Ok(())
    }

    /// Reinterprets the logical positions, in row-major order, under a new
    /// shape, by putting a dense layer on top.
    pub fn reshape(&mut self, shape: Vec<Dim>) -> (r: Result<(), ShapeError>)
        ensures
            r == reshape_outcome(shape_of(old(self)@.last().axes), shape@),
            final(self)@ == (if r is Ok {
                model_reshape(old(self)@, shape@)
            } else {
                old(self)@
            }),
    {
        let cur = self.shape();
        match (known_sizes(&cur), known_sizes(&shape)) {
            (Some(a), Some(b)) => {
                match (crate::layout::checked_product(a.as_slice()), crate::layout::checked_product(b.as_slice())) {
                    (Some(x), Some(y)) => {
                        if x != y {
                            return Err(ShapeError::ReshapeMismatch);
                        }
                    },
                    _ => {
                        return Err(ShapeError::Overflow);
                    },
                }
            },
            _ => {},
        }
        let ghost before = self@;
        let covered = self.top.duplicate();
        self.below.push(covered);
        self.top = Layer::fresh(shape);
        assert(self@ =~= model_reshape(before, shape@));
        Ok(())
    }

    /// Inserts a broadcast axis of extent `size` at position `axis`. Refused,
    /// with the tracker unchanged, when `axis` exceeds the rank.
    pub fn expand(&mut self, axis: usize, size: Dim) -> (r: Result<(), ShapeError>)
        ensures
            match r {
                Ok(_) => axis <= old(self)@.last().axes.len() && final(self)@ == model_expand(
                    old(self)@,
                    axis as int,
                    size,
                ),
                Err(e) => e == ShapeError::AxisOutOfRange && axis > old(self)@.last().axes.len()
                    && final(self)@ == old(self)@,
            },
    {
        if axis > self.top.axes.len() {
            return Err(ShapeError::AxisOutOfRange);
        }
        self.top.axes.insert(
            axis,
            Axis { dim: size, src: 0, fake: true, start: 0, pad_left: 0, pad_right: 0 },
        );
        assert(self@ =~= model_expand(old(self)@, axis as int, size));
        Ok(())
    }

    /// Restricts every axis to a range of its positions: `ranges[k]` gives
    /// the first position of axis `k` that is kept and the first that is not,
    /// both clipped to the extent. Positions that were invalid stay
    /// invalid. Refused, with the tracker unchanged, as [`slice_outcome`]
    /// says.
    pub fn slice(&mut self, ranges: &Vec<(usize, usize)>) -> (r: Result<(), ShapeError>)
        ensures
            match r {
                Ok(_) => slice_outcome(old(self)@.last().axes, ranges@) is Ok && final(self)@
                    == with_top(old(self)@, slice_outcome(old(self)@.last().axes, ranges@)->Ok_0),
                Err(e) => slice_outcome(old(self)@.last().axes, ranges@) == Err::<
                    Seq<Axis>,
                    ShapeError,
                >(e) && final(self)@ == old(self)@,
            },
    {
        let n: usize = self.top.axes.len();
        if ranges.len() != n {
            return Err(ShapeError::RankMismatch);
        }
        let mut axes: Vec<Axis> = Vec::new();
        let mut overflow: bool = false;
        let mut k: usize = 0;
        while k < n
            invariant
                k <= n,
                n == self.top.axes.len(),
                ranges.len() == n,
                *self == *old(self),
                forall|j: int|
                    0 <= j < k ==> slice_one(self.top.axes[j], ranges[j]) != Err::<
                        Axis,
                        ShapeError,
                    >(ShapeError::SymbolicExtent),
                overflow <==> exists|j: int|
                    0 <= j < k && slice_one(self.top.axes[j], ranges[j]) is Err,
                !overflow ==> axes.len() == k,
                !overflow ==> forall|j: int|
                    0 <= j < k ==> slice_one(self.top.axes[j], ranges[j]) == Ok::<
                        Axis,
                        ShapeError,
                    >(axes[j]),
            decreases n - k,
        {
            match slice_axis_exec(self.top.axes[k], ranges[k]) {
                Ok(a) => {
                    if !overflow {
                        axes.push(a);
                    }
                },
                Err(ShapeError::SymbolicExtent) => {
                    return Err(ShapeError::SymbolicExtent);
                },
                Err(_) => {
                    overflow = true;
                },
            }
            k += 1;
        }
        if overflow {
            return Err(ShapeError::Overflow);
        }
        assert(axes@ =~= slice_outcome(self.top.axes@, ranges@)->Ok_0);
        self.top.axes = axes;
        assert(self@ =~= with_top(old(self)@, slice_outcome(old(self)@.last().axes, ranges@)->Ok_0));
        Ok(())
    }

    /// Puts `pads[k].0` invalid positions before axis `k` and `pads[k].1`
    /// after it. Refused, with the tracker unchanged, as [`pad_outcome`]
    /// says.
    pub fn pad(&mut self, pads: &Vec<(usize, usize)>) -> (r: Result<(), ShapeError>)
        ensures
            match r {
                Ok(_) => pad_outcome(old(self)@.last().axes, pads@) is Ok && final(self)@
                    == with_top(old(self)@, pad_outcome(old(self)@.last().axes, pads@)->Ok_0),
                Err(e) => pad_outcome(old(self)@.last().axes, pads@) == Err::<
                    Seq<Axis>,
                    ShapeError,
                >(e) && final(self)@ == old(self)@,
            },
    {
        let n: usize = self.top.axes.len();
        if pads.len() != n {
            return Err(ShapeError::RankMismatch);
        }
        let mut axes: Vec<Axis> = Vec::new();
        let mut overflow: bool = false;
        let mut k: usize = 0;
        while k < n
            invariant
                k <= n,
                n == self.top.axes.len(),
                pads.len() == n,
                *self == *old(self),
                forall|j: int|
                    0 <= j < k ==> pad_one(self.top.axes[j], pads[j]) != Err::<Axis, ShapeError>(
                        ShapeError::SymbolicExtent,
                    ),
                overflow <==> exists|j: int|
                    0 <= j < k && pad_one(self.top.axes[j], pads[j]) is Err,
                !overflow ==> axes.len() == k,
                !overflow ==> forall|j: int|
                    0 <= j < k ==> pad_one(self.top.axes[j], pads[j]) == Ok::<Axis, ShapeError>(
                        axes[j],
                    ),
            decreases n - k,
        {
            match pad_axis_exec(self.top.axes[k], pads[k]) {
                Ok(a) => {
                    if !overflow {
                        axes.push(a);
                    }
                },
                Err(ShapeError::SymbolicExtent) => {
                    return Err(ShapeError::SymbolicExtent);
                },
                Err(_) => {
                    overflow = true;
                },
            }
            k += 1;
        }
        if overflow {
            return Err(ShapeError::Overflow);
        }
        assert(axes@ =~= pad_outcome(self.top.axes@, pads@)->Ok_0);
        self.top.axes = axes;
        assert(self@ =~= with_top(old(self)@, pad_outcome(old(self)@.last().axes, pads@)->Ok_0));
        Ok(())
    }
}

} // verus!
