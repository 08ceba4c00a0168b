//! Flat buffers of elements. A tensor holds no shape: the shape travels on
//! the edges of the graph, as a shape tracker.

use vstd::prelude::*;

verus! {

/// A flat buffer of elements.
#[derive(Debug)]
pub struct Tensor<T> {
    pub data: Vec<T>,
}

impl<T> Tensor<T> {
    /// The tensor that holds `data`.
    pub fn new(data: Vec<T>) -> (r: Tensor<T>)
        ensures
            r.data@ == data@,
    {
        Tensor { data }
    }
}

impl<T: Copy> Tensor<T> {
    /// A copy of the tensor.
    pub fn duplicate(&self) -> (r: Tensor<T>)
        ensures
            r.data@ == self.data@,
    {
        let mut out: Vec<T> = Vec::new();
        let mut k: usize = 0;
        while k < self.data.len()
            invariant
                k <= self.data.len(),
                out.len() == k,
                forall|j: int| 0 <= j < k ==> out[j] == self.data[j],
            decreases self.data.len() - k,
        {
            out.push(self.data[k]);
            k += 1;
        }
        assert(out@ =~= self.data@);
        Tensor { data: out }
    }
}

/// A tensor handed to an operator: its own, or one that it may only read.
pub enum InputTensor<'a, T> {
    Owned(Tensor<T>),
    Borrowed(&'a Tensor<T>),
}

impl<'a, T> InputTensor<'a, T> {
    /// The elements of the tensor, owned or borrowed.
    pub open spec fn elements(&self) -> Seq<T> {
        match self {
            InputTensor::Owned(t) => t.data@,
            InputTensor::Borrowed(t) => t.data@,
        }
    }

    /// The tensor, to read.
    pub fn borrowed(&'a self) -> (r: &'a Tensor<T>)
        ensures
            r.data@ == self.elements(),
    {
        match self {
            InputTensor::Owned(t) => t,
            InputTensor::Borrowed(t) => t,
        }
    }
}

impl<'a, T: Copy> InputTensor<'a, T> {
    /// The tensor, to keep: an owned one is handed over, a borrowed one is
    /// copied.
    pub fn cloned(self) -> (r: Tensor<T>)
        ensures
            r.data@ == self.elements(),
    {
        match self {
            InputTensor::Owned(t) => t,
            InputTensor::Borrowed(t) => t.duplicate(),
        }
    }
}

} // verus!
