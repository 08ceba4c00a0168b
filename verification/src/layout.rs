//! The arithmetic of row-major layouts: element counts, the coordinates of a
//! linear index, and the position that a stack of strided layers gives it.
//!
//! Apart from the checked product, everything here is specification and
//! proof; the executable code that these definitions describe lives with the
//! shape tracker and its indexer.

use vstd::arithmetic::div_mod::lemma_fundamental_div_mod;
use vstd::arithmetic::div_mod::lemma_fundamental_div_mod_converse;
use vstd::arithmetic::div_mod::lemma_multiply_divide_lt;
use vstd::prelude::*;

verus! {

/// The product of a sequence of extents; the empty product is one.
pub open spec fn product(s: Seq<nat>) -> nat
    decreases s.len(),
{
    if s.len() == 0 {
        1
    } else {
        product(s.drop_last()) * s.last()
    }
}

/// A product is positive exactly when every factor is.
pub proof fn lemma_product_positive(s: Seq<nat>)
    ensures
        product(s) > 0 <==> (forall|i: int| 0 <= i < s.len() ==> s[i] > 0),
    decreases s.len(),
{
    if s.len() > 0 {
        let t = s.drop_last();
        let p = product(t);
        let l = s.last();
        lemma_product_positive(t);
        assert((p * l > 0) <==> (p > 0 && l > 0)) by (nonlinear_arith)
            requires
                p >= 0,
                l >= 0,
        ;
        if product(s) > 0 {
            assert forall|i: int| 0 <= i < s.len() implies s[i] > 0 by {
                if i < s.len() - 1 {
                    assert(t[i] == s[i]);
                }
            }
        }
        if forall|i: int| 0 <= i < s.len() ==> s[i] > 0 {
            assert forall|i: int| 0 <= i < t.len() implies t[i] > 0 by {
                assert(t[i] == s[i]);
            }
        }
    }
}

/// The product of a suffix, in terms of the suffix that is one shorter.
pub proof fn lemma_product_skip(s: Seq<nat>, k: int)
    requires
        0 <= k < s.len(),
    ensures
        product(s.skip(k)) == s[k] * product(s.skip(k + 1)),
    decreases s.len() - k,
{
    let a = s.skip(k);
    let b = s.skip(k + 1);
    assert(a.last() == s.last());
    if k == s.len() - 1 {
        assert(a.drop_last() =~= Seq::<nat>::empty());
        assert(b =~= Seq::<nat>::empty());
        assert(product(a.drop_last()) == 1);
        assert(product(b) == 1);
        assert(product(a) == 1 * s[k]);
        assert(1 * s[k] == s[k] * 1) by (nonlinear_arith);
    } else {
        let t = s.drop_last();
        assert(a.drop_last() =~= t.skip(k));
        assert(b.drop_last() =~= t.skip(k + 1));
        assert(b.last() == s.last());
        lemma_product_skip(t, k);
        let x = s[k];
        let y = product(t.skip(k + 1));
        let z = s.last();
        assert(t[k] == x);
        assert(product(a) == (x * y) * z);
        assert(product(b) == y * z);
        assert((x * y) * z == x * (y * z)) by (nonlinear_arith);
    }
}

/// A product is the product of a prefix times the product of the rest.
pub proof fn lemma_product_split(s: Seq<nat>, i: int)
    requires
        0 <= i <= s.len(),
    ensures
        product(s) == product(s.take(i)) * product(s.skip(i)),
    decreases s.len() - i,
{
    if i == s.len() {
        assert(s.take(i) =~= s);
        assert(s.skip(i) =~= Seq::<nat>::empty());
        assert(product(s.skip(i)) == 1);
        assert(product(s) * 1 == product(s)) by (nonlinear_arith);
    } else {
        lemma_product_split(s, i + 1);
        lemma_product_skip(s, i);
        assert(s.take(i + 1).drop_last() =~= s.take(i));
        assert(s.take(i + 1).last() == s[i]);
        let a = product(s.take(i));
        let x = s[i];
        let b = product(s.skip(i + 1));
        assert((a * x) * b == a * (x * b)) by (nonlinear_arith);
    }
}

/// The coordinates of a linear index in a row-major array of the given
/// extents: the last axis varies fastest.
pub open spec fn coords(sizes: Seq<nat>, lin: nat) -> Seq<nat>
    decreases sizes.len(),
{
    if sizes.len() == 0 {
        Seq::empty()
    } else if sizes.last() == 0 {
        coords(sizes.drop_last(), 0).push(0)
    } else {
        coords(sizes.drop_last(), lin / sizes.last()).push(lin % sizes.last())
    }
}

/// The linear index of a coordinate vector in a row-major array.
pub open spec fn linear(sizes: Seq<nat>, c: Seq<nat>) -> nat
    decreases sizes.len(),
{
    if sizes.len() == 0 {
        0
    } else {
        linear(sizes.drop_last(), c.drop_last()) * sizes.last() + c.last()
    }
}

/// Every coordinate lies below the extent of its axis.
pub open spec fn in_bounds(sizes: Seq<nat>, c: Seq<nat>) -> bool {
    &&& c.len() == sizes.len()
    &&& forall|k: int| 0 <= k < sizes.len() ==> c[k] < sizes[k]
}

pub proof fn lemma_coords_in_bounds(sizes: Seq<nat>, lin: nat)
    requires
        forall|k: int| 0 <= k < sizes.len() ==> sizes[k] > 0,
    ensures
        in_bounds(sizes, coords(sizes, lin)),
    decreases sizes.len(),
{
    if sizes.len() > 0 {
        let t = sizes.drop_last();
        let n = sizes.last();
        assert forall|k: int| 0 <= k < t.len() implies t[k] > 0 by {
            assert(t[k] == sizes[k]);
        }
        lemma_coords_in_bounds(t, lin / n);
        let c = coords(sizes, lin);
        assert forall|k: int| 0 <= k < sizes.len() implies c[k] < sizes[k] by {
            if k < t.len() {
                assert(c[k] == coords(t, lin / n)[k]);
                assert(t[k] == sizes[k]);
            } else {
                assert(c[k] == lin % n);
                assert(lin % n < n) by (nonlinear_arith)
                    requires
                        n > 0,
                ;
            }
        }
    }
}

/// Taking the coordinates of an index and linearising them gives the index
/// back.
pub proof fn lemma_linear_of_coords(sizes: Seq<nat>, lin: nat)
    requires
        lin < product(sizes),
    ensures
        linear(sizes, coords(sizes, lin)) == lin,
    decreases sizes.len(),
{
    if sizes.len() > 0 {
        let t = sizes.drop_last();
        let n = sizes.last();
        let p = product(t);
        assert(n > 0) by (nonlinear_arith)
            requires
                lin < p * n,
                p >= 0,
                n >= 0,
        ;
        assert(lin < n * p) by (nonlinear_arith)
            requires
                lin < p * n,
        ;
        lemma_multiply_divide_lt(lin as int, n as int, p as int);
        lemma_linear_of_coords(t, lin / n);
        let c = coords(sizes, lin);
        assert(c.drop_last() =~= coords(t, lin / n));
        lemma_fundamental_div_mod(lin as int, n as int);
        assert((lin / n) * n == n * (lin / n)) by (nonlinear_arith);
    }
}

/// Linearising a coordinate vector and taking coordinates gives the vector
/// back, and the linear index lies below the element count.
pub proof fn lemma_coords_of_linear(sizes: Seq<nat>, c: Seq<nat>)
    requires
        in_bounds(sizes, c),
    ensures
        coords(sizes, linear(sizes, c)) == c,
        linear(sizes, c) < product(sizes),
    decreases sizes.len(),
{
    if sizes.len() == 0 {
        assert(c =~= Seq::<nat>::empty());
    } else {
        let t = sizes.drop_last();
        let n = sizes.last();
        let d = c.drop_last();
        let x = c.last();
        assert(in_bounds(t, d)) by {
            assert forall|k: int| 0 <= k < t.len() implies d[k] < t[k] by {
                assert(d[k] == c[k]);
                assert(t[k] == sizes[k]);
            }
        }
        lemma_coords_of_linear(t, d);
        let l = linear(t, d);
        let lin = linear(sizes, c);
        assert(lin == l * n + x);
        assert(x < n);
        lemma_fundamental_div_mod_converse(lin as int, n as int, l as int, x as int);
        assert(coords(sizes, lin) =~= c);
        let p = product(t);
        assert(l * n + x < p * n) by (nonlinear_arith)
            requires
                l < p,
                x < n,
        ;
    }
}

/// One axis of a layer with every extent resolved to a number.
///
/// Position `c` of the axis is valid when it lies outside the padding, and
/// then stands for source coordinate `c - pad_left + start`; a fake axis
/// contributes nothing to the offset.
pub ghost struct Span {
    pub size: nat,
    pub stride: nat,
    pub fake: bool,
    pub start: nat,
    pub pad_left: nat,
    pub pad_right: nat,
}

/// Whether position `c` of the axis lies outside its padding.
pub open spec fn span_valid(a: Span, c: nat) -> bool {
    a.pad_left <= c && c + a.pad_right < a.size
}

/// What position `c` of the axis adds to the offset, if the position is
/// valid.
pub open spec fn span_offset(a: Span, c: nat) -> Option<nat> {
    if span_valid(a, c) {
        Some(
            if a.fake {
                0
            } else {
                ((c - a.pad_left + a.start) * a.stride) as nat
            },
        )
    } else {
        None
    }
}

/// The sum of two partial offsets; invalid if either is.
pub open spec fn join(x: Option<nat>, y: Option<nat>) -> Option<nat> {
    match (x, y) {
        (Some(a), Some(b)) => Some(a + b),
        _ => None,
    }
}

/// The extents of a layer's axes.
pub open spec fn sizes(axes: Seq<Span>) -> Seq<nat> {
    axes.map_values(|a: Span| a.size)
}

/// The number of logical positions of a layer.
pub open spec fn count(axes: Seq<Span>) -> nat {
    product(sizes(axes))
}

/// The offset that a layer gives to a coordinate vector.
pub open spec fn offset_at(axes: Seq<Span>, c: Seq<nat>) -> Option<nat>
    decreases axes.len(),
{
    if axes.len() == 0 {
        Some(0)
    } else {
        join(offset_at(axes.drop_last(), c.drop_last()), span_offset(axes.last(), c.last()))
    }
}

/// The offset that a layer gives to a linear index.
pub open spec fn layer_offset(axes: Seq<Span>, lin: nat) -> Option<nat>
    decreases axes.len(),
{
    if axes.len() == 0 {
        Some(0)
    } else if axes.last().size == 0 {
        None
    } else {
        join(
            layer_offset(axes.drop_last(), lin / axes.last().size),
            span_offset(axes.last(), lin % axes.last().size),
        )
    }
}

/// The offset of a linear index is the offset of its coordinates.
pub proof fn lemma_layer_offset_coords(axes: Seq<Span>, lin: nat)
    ensures
        layer_offset(axes, lin) == offset_at(axes, coords(sizes(axes), lin)),
    decreases axes.len(),
{
    if axes.len() > 0 {
        let n = axes.last().size;
        let sz = sizes(axes);
        assert(sz.drop_last() =~= sizes(axes.drop_last()));
        assert(sz.last() == n);
        let c = coords(sz, lin);
        if n == 0 {
            assert(c.last() == 0);
        } else {
            lemma_layer_offset_coords(axes.drop_last(), lin / n);
            assert(c.drop_last() =~= coords(sizes(axes.drop_last()), lin / n));
        }
    }
}

/// One layer with every extent resolved: its axes, and the size of the
/// linear space that its offsets point into.
pub ghost struct Plane {
    pub axes: Seq<Span>,
    pub source: nat,
}

/// The position that a stack of layers gives to a linear index of its top
/// layer. The index is passed down from the top layer to the bottom one; it
/// is invalid as soon as it falls outside a layer, into its padding, or
/// outside the space that the layer reads from.
pub open spec fn stack_index(layers: Seq<Plane>, lin: nat) -> Option<nat>
    decreases layers.len(),
{
    if layers.len() == 0 {
        Some(lin)
    } else {
        let top = layers.last();
        if lin >= count(top.axes) {
            None
        } else {
            match layer_offset(top.axes, lin) {
                Some(p) => if p < top.source {
                    stack_index(layers.drop_last(), p)
                } else {
                    None
                },
                None => None,
            }
        }
    }
}

/// The axes of a dense row-major layer over the given extents, with every
/// stride scaled by `unit`.
pub open spec fn dense(s: Seq<nat>, unit: nat) -> Seq<Span> {
    Seq::new(
        s.len(),
        |k: int|
            Span {
                size: s[k],
                stride: product(s.skip(k + 1)) * unit,
                fake: false,
                start: 0,
                pad_left: 0,
                pad_right: 0,
            },
    )
}

/// A dense layer maps every linear index to itself, scaled by the unit.
pub proof fn lemma_dense_offset(s: Seq<nat>, unit: nat, lin: nat)
    requires
        lin < product(s),
    ensures
        layer_offset(dense(s, unit), lin) == Some(lin * unit),
        count(dense(s, unit)) == product(s),
    decreases s.len(),
{
    let axes = dense(s, unit);
    assert(sizes(axes) =~= s);
    if s.len() == 0 {
        assert(lin * unit == 0) by (nonlinear_arith)
            requires
                lin == 0,
        ;
    } else {
        let t = s.drop_last();
        let n = s.last();
        let p = product(t);
        assert(n > 0) by (nonlinear_arith)
            requires
                lin < p * n,
                p >= 0,
                n >= 0,
        ;
        assert(lin < n * p) by (nonlinear_arith)
            requires
                lin < p * n,
        ;
        lemma_multiply_divide_lt(lin as int, n as int, p as int);
        assert(axes.drop_last() =~= dense(t, n * unit)) by {
            assert forall|k: int| 0 <= k < t.len() implies axes.drop_last()[k] == dense(
                t,
                n * unit,
            )[k] by {
                assert(s.skip(k + 1).drop_last() =~= t.skip(k + 1));
                let y = product(t.skip(k + 1));
                assert((y * n) * unit == y * (n * unit)) by (nonlinear_arith);
            }
        }
        lemma_dense_offset(t, n * unit, lin / n);
        let last = axes.last();
        assert(s.skip(s.len() as int) =~= Seq::<nat>::empty());
        assert(last.stride == unit) by {
            assert(product(Seq::<nat>::empty()) == 1);
            assert(1 * unit == unit) by (nonlinear_arith);
        }
        assert(last.size == n);
        assert(lin % n < n) by (nonlinear_arith)
            requires
                n > 0,
        ;
        lemma_fundamental_div_mod(lin as int, n as int);
        let q = lin / n;
        let r = lin % n;
        assert(q * (n * unit) + r * unit == lin * unit) by (nonlinear_arith)
            requires
                lin == n * q + r,
        ;
    }
}

/// A sequence of machine words as natural numbers.
pub open spec fn nats(s: Seq<usize>) -> Seq<nat> {
    s.map_values(|x: usize| x as nat)
}

/// With positive factors, the product of a prefix is at most the product of
/// the whole.
pub proof fn lemma_product_prefix(s: Seq<nat>, i: int)
    requires
        0 <= i <= s.len(),
        forall|j: int| 0 <= j < s.len() ==> s[j] > 0,
    ensures
        product(s.take(i)) <= product(s),
    decreases s.len(),
{
    if i == s.len() {
        assert(s.take(i) =~= s);
    } else {
        let t = s.drop_last();
        assert(s.take(i) =~= t.take(i));
        assert forall|j: int| 0 <= j < t.len() implies t[j] > 0 by {
            assert(t[j] == s[j]);
        }
        lemma_product_prefix(t, i);
        let p = product(t);
        let l = s.last();
        assert(p <= p * l) by (nonlinear_arith)
            requires
                l > 0,
                p >= 0,
        ;
    }
}

/// The product of a list of extents, unless it exceeds the machine word.
pub fn checked_product(v: &[usize]) -> (r: Option<usize>)
    ensures
        match r {
            Some(p) => p == product(nats(v@)),
            None => product(nats(v@)) > usize::MAX,
        },
{
    let ghost vals = nats(v@);
    let mut k: usize = 0;
    while k < v.len()
        invariant
            k <= v.len(),
            vals == nats(v@),
            forall|j: int| 0 <= j < k ==> vals[j] > 0,
        decreases v.len() - k,
    {
        if v[k] == 0 {
            proof {
                lemma_product_positive(vals);
                assert(vals[k as int] == 0);
            }
            return Some(0);
        }
        k += 1;
    }
    let mut acc: usize = 1;
    let mut i: usize = 0;
    assert(vals.take(0) =~= Seq::<nat>::empty());
    while i < v.len()
        invariant
            i <= v.len(),
            vals == nats(v@),
            forall|j: int| 0 <= j < vals.len() ==> vals[j] > 0,
            acc == product(vals.take(i as int)),
        decreases v.len() - i,
    {
        let n: usize = v[i];
        proof {
            assert(vals[i as int] == n);
            assert(vals.take(i + 1).drop_last() =~= vals.take(i as int));
            assert(vals.take(i + 1).last() == n);
        }
        match acc.checked_mul(n) {
            Some(p) => {
                acc = p;
            },
            None => {
                proof {
                    lemma_product_prefix(vals, i + 1);
                }
                return None;
            },
        }
        i += 1;
    }
    assert(vals.take(i as int) =~= vals);
    Some(acc)
}

} // verus!
