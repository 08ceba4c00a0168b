//! The scalar arithmetic that the operators are written over, and the reading
//! of elements through an indexer.
//!
//! The library is generic in the element type. What an operator does to a
//! single element is decided by two functions that the caller supplies; the
//! operators decide which elements are read and where the results go.

use crate::indexer::Indexer;
use crate::layout::stack_index;
use crate::layout::Plane;
use vstd::prelude::*;

verus! {

/// The scalar functions of one argument.
#[derive(Clone, Copy, Debug, PartialEq, Eq, Structural)]
pub enum UnaryKind {
    Log2,
    Exp2,
    Sin,
    Sqrt,
    Recip,
}

/// The scalar functions of two arguments.
#[derive(Clone, Copy, Debug, PartialEq, Eq, Structural)]
pub enum BinaryKind {
    Add,
    Mul,
    Mod,
    LessThan,
    Max,
}

/// The arithmetic of an element type: the two identity elements, and the
/// functions that compute a scalar operation of a given kind.
///
/// `zero` is what an invalid position reads as, and what a sum starts from;
/// `lowest` is what a maximum starts from.
pub struct Arith<T, U, B> {
    pub zero: T,
    pub lowest: T,
    pub unary: U,
    pub binary: B,
}

/// Whether the two functions may be called on every argument.
pub open spec fn total<T, U: Fn(UnaryKind, T) -> T, B: Fn(BinaryKind, T, T) -> T>(
    arith: Arith<T, U, B>,
) -> bool {
    &&& forall|k: UnaryKind, x: T| call_requires(arith.unary, (k, x))
    &&& forall|k: BinaryKind, x: T, y: T| call_requires(arith.binary, (k, x, y))
}

/// The element that logical index `i` reads from a buffer through a resolved
/// tracker, if the index is valid and the position lies inside the buffer.
pub open spec fn read<T>(data: Seq<T>, planes: Seq<Plane>, i: nat) -> Option<T> {
    match stack_index(planes, i) {
        Some(p) => if p < data.len() {
            Some(data[p as int])
        } else {
            None
        },
        None => None,
    }
}

/// The element that logical index `i` reads, with `zero` standing for an
/// invalid position.
pub open spec fn read_or<T>(data: Seq<T>, planes: Seq<Plane>, i: nat, zero: T) -> T {
    match read(data, planes, i) {
        Some(x) => x,
        None => zero,
    }
}

/// Reads the element of logical index `i`, if there is one.
pub fn gather<T: Copy>(data: &Vec<T>, ix: &Indexer, i: usize) -> (r: Option<T>)
    requires
        ix.wf(),
    ensures
        r == read(data@, ix@, i as nat),
{
    match ix.index(i) {
        Some(p) => {
            if p < data.len() {
                Some(data[p])
            } else {
                None
            }
        },
        None => None,
    }
}

/// Reads the element of logical index `i`, or `zero` where there is none.
pub fn gather_or<T: Copy>(data: &Vec<T>, ix: &Indexer, i: usize, zero: T) -> (r: T)
    requires
        ix.wf(),
    ensures
        r == read_or(data@, ix@, i as nat, zero),
{
    match gather(data, ix, i) {
        Some(x) => x,
        None => zero,
    }
}

/// Whether `r` is a result of folding the elements of `xs`, from the first
/// to the last, into `start` with the binary function of the given kind.
/// A position without an element is skipped.
pub open spec fn folds<T, B: Fn(BinaryKind, T, T) -> T>(
    f: B,
    kind: BinaryKind,
    start: T,
    xs: Seq<Option<T>>,
    r: T,
) -> bool
    decreases xs.len(),
{
    if xs.len() == 0 {
        r == start
    } else {
        match xs.last() {
            None => folds(f, kind, start, xs.drop_last(), r),
            Some(x) => exists|m: T|
                folds(f, kind, start, xs.drop_last(), m) && call_ensures(f, (kind, m, x), r),
        }
    }
}

/// Folding one element more.
pub proof fn lemma_folds_step<T, B: Fn(BinaryKind, T, T) -> T>(
    f: B,
    kind: BinaryKind,
    start: T,
    xs: Seq<Option<T>>,
    q: int,
    acc: T,
    next: T,
)
    requires
        0 <= q < xs.len(),
        folds(f, kind, start, xs.take(q), acc),
        match xs[q] {
            Some(x) => call_ensures(f, (kind, acc, x), next),
            None => next == acc,
        },
    ensures
        folds(f, kind, start, xs.take(q + 1), next),
{
    let t = xs.take(q + 1);
    assert(t.drop_last() =~= xs.take(q));
    assert(t.last() == xs[q]);
    assert(t.len() > 0);
    match xs[q] {
        Some(x) => {
            assert(folds(f, kind, start, t.drop_last(), acc) && call_ensures(
                f,
                (kind, acc, x),
                next,
            ));
        },
        None => {
            assert(folds(f, kind, start, t.drop_last(), next));
        },
    }
}

} // verus!
