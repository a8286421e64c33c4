use vstd::prelude::*;
use crate::field::Fp;

verus! {

/// A polynomial in evaluation form: its values at the sample points
/// `0, 1, 2, ...` (mapped into the field), and an upper bound on its degree.
pub struct Evals {
    pub evals: Vec<u64>,
    pub degree: usize,
}

impl Evals {
    /// Enough samples for the tracked degree, and every value canonical in `f`.
    pub open spec fn wf(&self, f: Fp) -> bool {
        &&& self.degree < self.evals@.len()
        &&& forall|i: int| 0 <= i < self.evals@.len() ==> f.elem(#[trigger] self.evals@[i])
    }

    pub open spec fn spec_len(&self) -> nat {
        self.evals@.len()
    }

    pub fn new(evals: Vec<u64>, degree: usize) -> (r: Evals)
        requires
            degree < evals@.len(),
        ensures
            r.evals@ == evals@,
            r.degree == degree,
    {
        Evals { evals, degree }
    }

    pub fn len(&self) -> (r: usize)
        ensures
            r == self.evals@.len(),
    {
        self.evals.len()
    }

    pub fn degree(&self) -> (r: usize)
        ensures
            r == self.degree,
    {
        self.degree
    }

    pub fn evals(&self) -> (r: &Vec<u64>)
        ensures
            r@ == self.evals@,
    {
        &self.evals
    }
}

} // verus!
