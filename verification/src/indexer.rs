//! Index resolution: a shape tracker with every named extent replaced by its
//! value, compiled into a function from a logical index to the position of
//! the element in the buffer.

use crate::dim::dim_value;
use crate::dim::Dim;
use crate::dim::DynMap;
use crate::layout::checked_product;
use crate::layout::count;
use crate::layout::join;
use crate::layout::layer_offset;
use crate::layout::nats;
use crate::layout::product;
use crate::layout::sizes;
use crate::layout::span_offset;
use crate::layout::stack_index;
use crate::layout::Plane;
use crate::layout::Span;
use crate::tracker::shape_of;
use crate::tracker::Axis;
use crate::tracker::Layer;
use crate::tracker::LayerSpec;
use crate::tracker::ShapeError;
use crate::tracker::ShapeTracker;
use vstd::arithmetic::div_mod::lemma_multiply_divide_lt;
use vstd::prelude::*;

verus! {

/// Whether every extent of the list has a value under the bindings.
pub open spec fn all_bound(dims: Seq<Dim>, env: Map<char, usize>) -> bool {
    forall|k: int| 0 <= k < dims.len() ==> (#[trigger] dim_value(dims[k], env)) is Some
}

/// The value of an extent, and zero for one without a value.
pub open spec fn value_or_zero(d: Dim, env: Map<char, usize>) -> nat {
    match dim_value(d, env) {
        Some(n) => n,
        None => 0,
    }
}

/// The values of a list of extents.
pub open spec fn dim_values(dims: Seq<Dim>, env: Map<char, usize>) -> Seq<nat> {
    dims.map_values(|d: Dim| value_or_zero(d, env))
}

/// The stride of an axis: the number of elements, in the shape that the
/// layer was created with, between neighbours along the source axis. A fake
/// axis has none.
pub open spec fn stride_of(a: Axis, origin: Seq<Dim>, env: Map<char, usize>) -> nat {
    if a.fake || a.src >= origin.len() {
        0
    } else {
        product(dim_values(origin, env).skip(a.src + 1))
    }
}

/// An axis with its extent and stride as numbers.
pub open spec fn resolve_axis(a: Axis, origin: Seq<Dim>, env: Map<char, usize>) -> Span {
    Span {
        size: value_or_zero(a.dim, env),
        stride: stride_of(a, origin, env),
        fake: a.fake,
        start: a.start as nat,
        pad_left: a.pad_left as nat,
        pad_right: a.pad_right as nat,
    }
}

/// A layer with every extent as a number.
pub open spec fn resolve_layer(l: LayerSpec, env: Map<char, usize>) -> Plane {
    Plane {
        axes: l.axes.map_values(|a: Axis| resolve_axis(a, l.origin, env)),
        source: product(dim_values(l.origin, env)),
    }
}

/// A stack of layers with every extent as a number.
pub open spec fn resolve(m: Seq<LayerSpec>, env: Map<char, usize>) -> Seq<Plane> {
    m.map_values(|l: LayerSpec| resolve_layer(l, env))
}

/// Whether every extent that the layer mentions has a value.
pub open spec fn layer_bound(l: LayerSpec, env: Map<char, usize>) -> bool {
    all_bound(l.origin, env) && all_bound(shape_of(l.axes), env)
}

/// Whether every extent that the stack mentions has a value.
pub open spec fn bound(m: Seq<LayerSpec>, env: Map<char, usize>) -> bool {
    forall|k: int| 0 <= k < m.len() ==> #[trigger] layer_bound(m[k], env)
}

/// Whether the numbers of a resolved layer fit the machine word.
pub open spec fn plane_fits(p: Plane) -> bool {
    &&& p.source <= usize::MAX
    &&& count(p.axes) <= usize::MAX
    &&& forall|k: int| 0 <= k < p.axes.len() ==> (#[trigger] p.axes[k]).stride <= usize::MAX
}

/// Whether the numbers of every resolved layer fit the machine word.
pub open spec fn fits(planes: Seq<Plane>) -> bool {
    forall|k: int| 0 <= k < planes.len() ==> #[trigger] plane_fits(planes[k])
}

/// Whether every layer above the bottom one reads a space of exactly as many
/// positions as the layer under it has: the two sides of every reshape
/// agree.
pub open spec fn consistent(planes: Seq<Plane>) -> bool {
    forall|k: int| 1 <= k < planes.len() ==> (#[trigger] planes[k]).source == count(planes[k - 1].axes)
}

/// What resolving a stack under the bindings gives: the resolved stack, or
/// the reason why there is none. A named extent without a value is looked
/// for first, then a number that does not fit the machine word, then a
/// reshape whose two sides disagree.
pub open spec fn resolve_outcome(m: Seq<LayerSpec>, env: Map<char, usize>) -> Result<
    Seq<Plane>,
    ShapeError,
> {
    if !bound(m, env) {
        Err(ShapeError::UnresolvedDim)
    } else if !fits(resolve(m, env)) {
        Err(ShapeError::Overflow)
    } else if !consistent(resolve(m, env)) {
        Err(ShapeError::ReshapeMismatch)
    } else {
        Ok(resolve(m, env))
    }
}

/// The position in the buffer that the tracker gives to logical index `i`
/// under the bindings, if the index is valid.
pub open spec fn tracker_index(m: Seq<LayerSpec>, env: Map<char, usize>, i: nat) -> Option<nat> {
    stack_index(resolve(m, env), i)
}

/// One axis of a resolved layer.
#[derive(Clone, Copy, Debug, PartialEq, Eq, Structural)]
pub struct IndexAxis {
    pub size: usize,
    pub stride: usize,
    pub fake: bool,
    pub start: usize,
    pub pad_left: usize,
    pub pad_right: usize,
}

impl IndexAxis {
    /// The axis as a mathematical value.
    pub open spec fn span(self) -> Span {
        Span {
            size: self.size as nat,
            stride: self.stride as nat,
            fake: self.fake,
            start: self.start as nat,
            pad_left: self.pad_left as nat,
            pad_right: self.pad_right as nat,
        }
    }
}

/// One resolved layer, with the number of its logical positions.
#[derive(Debug)]
pub struct IndexLayer {
    pub axes: Vec<IndexAxis>,
    pub count: usize,
    pub source: usize,
}

impl View for IndexLayer {
    type V = Plane;

    open spec fn view(&self) -> Plane {
        Plane { axes: self.axes@.map_values(|a: IndexAxis| a.span()), source: self.source as nat }
    }
}

impl IndexLayer {
    /// The stored count is the number of positions of the axes.
    pub open spec fn wf(&self) -> bool {
        self.count == count(self@.axes)
    }

    /// The offset that the layer gives to one of its positions. `None` means
    /// that the position is invalid, or that its offset exceeds the machine
    /// word.
    pub fn offset(&self, lin: usize) -> (r: Option<usize>)
        requires
            self.wf(),
            lin < self.count,
        ensures
            match r {
                Some(p) => layer_offset(self@.axes, lin as nat) == Some(p as nat),
                None => match layer_offset(self@.axes, lin as nat) {
                    Some(p) => p > usize::MAX,
                    None => true,
                },
            },
    {
        let ghost all = self@.axes;
        let mut cur: usize = lin;
        let mut acc: usize = 0;
        let mut k: usize = self.axes.len();
        assert(all.take(k as int) =~= all);
        while k > 0
            invariant
                k <= self.axes.len(),
                all == self@.axes,
                cur < count(all.take(k as int)),
                layer_offset(all, lin as nat) == join(
                    layer_offset(all.take(k as int), cur as nat),
                    Some(acc as nat),
                ),
            decreases k,
        {
            let a: IndexAxis = self.axes[k - 1];
            let ghost part = all.take(k as int);
            let ghost rest = all.take(k - 1);
            proof {
                assert(part.drop_last() =~= rest);
                assert(part.last() == a.span());
                assert(sizes(part).drop_last() =~= sizes(rest));
                assert(sizes(part).last() == a.size);
                let p = count(rest);
                let n = a.size as nat;
                assert(n > 0 && cur < n * p) by (nonlinear_arith)
                    requires
                        cur < p * n,
                        p >= 0,
                        n >= 0,
                ;
                lemma_multiply_divide_lt(cur as int, n as int, p as int);
            }
            let c: usize = cur % a.size;
            let next: usize = cur / a.size;
            if c < a.pad_left || a.pad_right >= a.size || c >= a.size - a.pad_right {
                assert(span_offset(a.span(), c as nat) is None);
                return None;
            }
            assert(span_offset(a.span(), c as nat) is Some);
            let ghost step = span_offset(a.span(), c as nat)->Some_0;
            let add: usize = if a.fake {
                0
            } else if a.stride == 0 {
                assert(step == 0) by (nonlinear_arith)
                    requires
                        step == (c - a.pad_left + a.start) * a.stride,
                        a.stride == 0,
                ;
                0
            } else {
                proof {
                    let x = (c - a.pad_left + a.start) as int;
                    let s = a.stride as int;
                    assert(x * s >= x) by (nonlinear_arith)
                        requires
                            x >= 0,
                            s >= 1,
                    ;
                }
                match (c - a.pad_left).checked_add(a.start) {
                    Some(x) => match x.checked_mul(a.stride) {
                        Some(y) => y,
                        None => {
                            return None;
                        },
                    },
                    None => {
                        return None;
                    },
                }
            };
            assert(add == step);
            acc = match acc.checked_add(add) {
                Some(v) => v,
                None => {
                    return None;
                },
            };
            cur = next;
            k -= 1;
        }
        assert(all.take(0) =~= Seq::<Span>::empty());
        Some(acc)
    }
}

/// A resolved shape tracker: the layers from the bottom to the top, with
/// every extent and stride as a number.
#[derive(Debug)]
pub struct Indexer {
    pub layers: Vec<IndexLayer>,
}

impl View for Indexer {
    type V = Seq<Plane>;

    open spec fn view(&self) -> Seq<Plane> {
        self.layers@.map_values(|l: IndexLayer| l@)
    }
}

impl Indexer {
    /// There is a top layer, and every layer holds its own count.
    pub open spec fn wf(&self) -> bool {
        &&& self.layers.len() > 0
        &&& forall|k: int| 0 <= k < self.layers.len() ==> (#[trigger] self.layers[k]).wf()
    }

    /// The number of logical positions.
    pub fn n_elements(&self) -> (r: usize)
        requires
            self.wf(),
        ensures
            r == count(self@.last().axes),
    {
        self.layers[self.layers.len() - 1].count
    }

    /// The position in the buffer of logical index `i`, or `None` where the
    /// index is invalid: outside the logical shape, in padding, or outside
    /// the buffer.
    pub fn index(&self, i: usize) -> (r: Option<usize>)
        requires
            self.wf(),
        ensures
            match r {
                Some(p) => stack_index(self@, i as nat) == Some(p as nat),
                None => stack_index(self@, i as nat) is None,
            },
    {
        let ghost all = self@;
        let mut lin: usize = i;
        let mut k: usize = self.layers.len();
        assert(all.take(k as int) =~= all);
        while k > 0
            invariant
                k <= self.layers.len(),
                self.wf(),
                all == self@,
                stack_index(all, i as nat) == stack_index(all.take(k as int), lin as nat),
            decreases k,
        {
            let layer = &self.layers[k - 1];
            proof {
                assert(all.take(k as int).drop_last() =~= all.take(k - 1));
                assert(all.take(k as int).last() == layer@);
            }
            if lin >= layer.count {
                return None;
            }
            match layer.offset(lin) {
                None => {
                    return None;
                },
                Some(p) => {
                    if p >= layer.source {
                        return None;
                    }
                    lin = p;
                },
            }
            k -= 1;
        }
        assert(all.take(0) =~= Seq::<Plane>::empty());
        Some(lin)
    }
}

/// Whether every extent of the list has a value.
pub fn dims_bound(dims: &Vec<Dim>, env: &DynMap) -> (r: bool)
    ensures
        r == all_bound(dims@, env@),
{
    let mut k: usize = 0;
    while k < dims.len()
        invariant
            k <= dims.len(),
            forall|j: int| 0 <= j < k ==> (#[trigger] dim_value(dims[j], env@)) is Some,
        decreases dims.len() - k,
    {
        if env.resolve(dims[k]).is_none() {
            assert(dim_value(dims[k as int], env@) is None);
            return false;
        }
        k += 1;
    }
    true
}

/// Whether every extent that the layer mentions has a value.
pub fn layer_is_bound(l: &Layer, env: &DynMap) -> (r: bool)
    ensures
        r == layer_bound(l@, env@),
{
    if !dims_bound(&l.origin, env) {
        return false;
    }
    let ghost shape = shape_of(l.axes@);
    let mut k: usize = 0;
    while k < l.axes.len()
        invariant
            k <= l.axes.len(),
            shape == shape_of(l.axes@),
            forall|j: int| 0 <= j < k ==> (#[trigger] dim_value(shape[j], env@)) is Some,
        decreases l.axes.len() - k,
    {
        if env.resolve(l.axes[k].dim).is_none() {
            assert(dim_value(shape[k as int], env@) is None);
            return false;
        }
        k += 1;
    }
    true
}

/// The values of a list of extents that all have one.
pub fn resolve_dims(dims: &Vec<Dim>, env: &DynMap) -> (r: Vec<usize>)
    requires
        all_bound(dims@, env@),
    ensures
        nats(r@) == dim_values(dims@, env@),
{
    let mut out: Vec<usize> = Vec::new();
    let mut k: usize = 0;
    while k < dims.len()
        invariant
            k <= dims.len(),
            out.len() == k,
            all_bound(dims@, env@),
            forall|j: int| 0 <= j < k ==> out[j] as nat == value_or_zero(dims[j], env@),
        decreases dims.len() - k,
    {
        assert(dim_value(dims[k as int], env@) is Some);
        let v: usize = match env.resolve(dims[k]) {
            Some(n) => n,
            None => 0,
        };
        out.push(v);
        k += 1;
    }
    assert(nats(out@) =~= dim_values(dims@, env@));
    out
}

/// The part of a list from position `from` on.
pub fn suffix(v: &Vec<usize>, from: usize) -> (r: Vec<usize>)
    requires
        from <= v.len(),
    ensures
        r@ == v@.skip(from as int),
{
    let mut out: Vec<usize> = Vec::new();
    let mut k: usize = from;
    while k < v.len()
        invariant
            from <= k <= v.len(),
            out.len() == k - from,
            forall|j: int| 0 <= j < k - from ==> out[j] == v[from + j],
        decreases v.len() - k,
    {
        out.push(v[k]);
        k += 1;
    }
    assert(out@ =~= v@.skip(from as int));
    out
}

/// A layer with every extent and stride as a number, unless one of the
/// numbers exceeds the machine word.
pub fn resolve_layer_exec(l: &Layer, env: &DynMap) -> (r: Option<IndexLayer>)
    requires
        layer_bound(l@, env@),
    ensures
        match r {
            Some(il) => il@ == resolve_layer(l@, env@) && il.wf() && plane_fits(il@),
            None => !plane_fits(resolve_layer(l@, env@)),
        },
{
    let ghost want = resolve_layer(l@, env@);
    let ov = resolve_dims(&l.origin, env);
    let source: usize = match checked_product(ov.as_slice()) {
        Some(p) => p,
        None => {
            return None;
        },
    };
    let mut axes: Vec<IndexAxis> = Vec::new();
    let mut extents: Vec<usize> = Vec::new();
    let ghost shape = shape_of(l.axes@);
    let mut k: usize = 0;
    while k < l.axes.len()
        invariant
            k <= l.axes.len(),
            axes.len() == k,
            extents.len() == k,
            want == resolve_layer(l@, env@),
            shape == shape_of(l.axes@),
            all_bound(shape, env@),
            nats(ov@) == dim_values(l.origin@, env@),
            ov.len() == l.origin.len(),
            forall|j: int| 0 <= j < k ==> (#[trigger] axes[j]).span() == want.axes[j],
            forall|j: int| 0 <= j < k ==> extents[j] == (#[trigger] axes[j]).size,
        decreases l.axes.len() - k,
    {
        let a: Axis = l.axes[k];
        assert(dim_value(shape[k as int], env@) is Some);
        let size: usize = match env.resolve(a.dim) {
            Some(n) => n,
            None => 0,
        };
        let stride: usize = if a.fake || a.src >= l.origin.len() {
            0
        } else {
            let tail = suffix(&ov, a.src + 1);
            assert(nats(tail@) =~= nats(ov@).skip(a.src + 1));
            match checked_product(tail.as_slice()) {
                Some(p) => p,
                None => {
                    assert(want.axes[k as int].stride > usize::MAX);
                    return None;
                },
            }
        };
        axes.push(
            IndexAxis {
                size,
                stride,
                fake: a.fake,
                start: a.start,
                pad_left: a.pad_left,
                pad_right: a.pad_right,
            },
        );
        extents.push(size);
        k += 1;
    }
    let ghost spans = axes@.map_values(|a: IndexAxis| a.span());
    assert(spans =~= want.axes);
    assert(nats(extents@) =~= sizes(spans));
    let total: usize = match checked_product(extents.as_slice()) {
        Some(p) => p,
        None => {
            return None;
        },
    };
    let il = IndexLayer { axes, count: total, source };
    assert(il@.axes == spans);
    assert forall|j: int| 0 <= j < il@.axes.len() implies (#[trigger] il@.axes[j]).stride
        <= usize::MAX by {
        assert(il@.axes[j] == il.axes[j].span());
    }
    Some(il)
}

impl ShapeTracker {
    /// Resolves the tracker under the bindings `env` into an indexer, or says
    /// why it cannot be resolved, as [`resolve_outcome`] has it.
    pub fn indexer(&self, env: &DynMap) -> (r: Result<Indexer, ShapeError>)
        ensures
            match r {
                Ok(ix) => ix.wf() && resolve_outcome(self@, env@) == Ok::<Seq<Plane>, ShapeError>(
                    ix@,
                ),
                Err(e) => resolve_outcome(self@, env@) == Err::<Seq<Plane>, ShapeError>(e),
            },
    {
        let ghost m = self@;
        let ghost want = resolve(m, env@);
        let depth: usize = self.below.len();
        assert(m.len() == depth + 1);
        assert(forall|j: int| 0 <= j < depth ==> m[j] == self.below[j]@);
        assert(m[depth as int] == self.top@);
        let mut k: usize = 0;
        while k < depth
            invariant
                k <= depth,
                depth == self.below.len(),
                m == self@,
                m.len() == depth + 1,
                forall|j: int| 0 <= j < depth ==> m[j] == self.below[j]@,
                forall|j: int| 0 <= j < k ==> #[trigger] layer_bound(m[j], env@),
            decreases depth - k,
        {
            if !layer_is_bound(&self.below[k], env) {
                assert(!layer_bound(m[k as int], env@));
                return Err(ShapeError::UnresolvedDim);
            }
            k += 1;
        }
        if !layer_is_bound(&self.top, env) {
            assert(!layer_bound(m[depth as int], env@));
            return Err(ShapeError::UnresolvedDim);
        }
        assert(bound(m, env@));
        let mut layers: Vec<IndexLayer> = Vec::new();
        let mut i: usize = 0;
        while i < depth
            invariant
                i <= depth,
                depth == self.below.len(),
                m == self@,
                want == resolve(m, env@),
                m.len() == depth + 1,
                bound(m, env@),
                forall|j: int| 0 <= j < depth ==> m[j] == self.below[j]@,
                layers.len() == i,
                forall|j: int| 0 <= j < i ==> (#[trigger] layers[j])@ == want[j],
                forall|j: int| 0 <= j < i ==> (#[trigger] layers[j]).wf(),
                forall|j: int| 0 <= j < i ==> #[trigger] plane_fits(want[j]),
            decreases depth - i,
        {
            assert(layer_bound(m[i as int], env@));
            match resolve_layer_exec(&self.below[i], env) {
                Some(il) => {
                    layers.push(il);
                },
                None => {
                    assert(!plane_fits(want[i as int]));
                    return Err(ShapeError::Overflow);
                },
            }
            i += 1;
        }
        assert(layer_bound(m[depth as int], env@));
        match resolve_layer_exec(&self.top, env) {
            Some(il) => {
                layers.push(il);
            },
            None => {
                assert(!plane_fits(want[depth as int]));
                return Err(ShapeError::Overflow);
            },
        }
        let ix = Indexer { layers };
        assert(ix@ =~= want);
        assert(fits(want));
        let mut j: usize = 1;
        while j <= depth
            invariant
                1 <= j <= depth + 1,
                ix.layers.len() == depth + 1,
                ix@ == want,
                m == self@,
                want == resolve(m, env@),
                bound(m, env@),
                fits(want),
                ix.wf(),
                forall|q: int| 1 <= q < j ==> (#[trigger] want[q]).source == count(want[q - 1].axes),
            decreases depth + 1 - j,
        {
            assert(ix@[j as int] == ix.layers[j as int]@);
            assert(ix@[j - 1] == ix.layers[j - 1]@);
            assert(ix.layers[j - 1].wf());
            if ix.layers[j].source != ix.layers[j - 1].count {
                assert(want[j as int].source != count(want[j - 1].axes));
                return Err(ShapeError::ReshapeMismatch);
            }
            j += 1;
        }
        assert(consistent(want));
        Ok(ix)
    }
}

impl Indexer {
    /// For every axis of the logical shape, whether it is a broadcast axis.
    pub fn fakes(&self) -> (r: Vec<bool>)
        requires
            self.wf(),
        ensures
            r@ == self@.last().axes.map_values(|a: Span| a.fake),
    {
        let top = &self.layers[self.layers.len() - 1];
        let mut out: Vec<bool> = Vec::new();
        let mut k: usize = 0;
        while k < top.axes.len()
            invariant
                k <= top.axes.len(),
                out.len() == k,
                forall|j: int| 0 <= j < k ==> out[j] == top.axes[j].fake,
            decreases top.axes.len() - k,
        {
            out.push(top.axes[k].fake);
            k += 1;
        }
        assert(self@.last() == top@);
        assert(out@ =~= top@.axes.map_values(|a: Span| a.fake));
        out
    }

    /// The logical shape, as numbers.
    pub fn shape(&self) -> (r: Vec<usize>)
        requires
            self.wf(),
        ensures
            nats(r@) == sizes(self@.last().axes),
    {
        let top = &self.layers[self.layers.len() - 1];
        let mut out: Vec<usize> = Vec::new();
        let mut k: usize = 0;
        while k < top.axes.len()
            invariant
                k <= top.axes.len(),
                out.len() == k,
                forall|j: int| 0 <= j < k ==> out[j] == top.axes[j].size,
            decreases top.axes.len() - k,
        {
            out.push(top.axes[k].size);
            k += 1;
        }
        assert(self@.last() == top@);
        assert(nats(out@) =~= sizes(top@.axes));
        out
    }
}

/// Whether two resolved trackers are equal in value: they resolve every
/// logical index identically.
pub open spec fn same_mapping(a: Seq<Plane>, b: Seq<Plane>) -> bool {
    forall|i: nat| stack_index(a, i) == stack_index(b, i)
}

impl Indexer {
    /// Whether the two indexers are equal in value.
    pub fn agrees_with(&self, other: &Indexer) -> (r: bool)
        requires
            self.wf(),
            other.wf(),
        ensures
            r == same_mapping(self@, other@),
    {
        let na: usize = self.n_elements();
        let nb: usize = other.n_elements();
        let n: usize = if na >= nb { na } else { nb };
        let mut i: usize = 0;
        while i < n
            invariant
                i <= n,
                self.wf(),
                other.wf(),
                forall|j: nat| j < i ==> stack_index(self@, j) == stack_index(other@, j),
            decreases n - i,
        {
            if self.index(i) != other.index(i) {
                assert(stack_index(self@, i as nat) != stack_index(other@, i as nat));
                return false;
            }
            i += 1;
        }
        assert forall|j: nat| stack_index(self@, j) == stack_index(other@, j) by {
            if j >= n {
                assert(stack_index(self@, j) is None);
                assert(stack_index(other@, j) is None);
            }
        }
        true
    }
}

} // verus!
