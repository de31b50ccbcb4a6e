use vstd::prelude::*;
use crate::errors::UpdateError;

verus! {

/// A row, column or house number, or a place within one of them: 0..=8.
#[derive(Debug, PartialEq, Eq, PartialOrd, Ord, Clone, Copy, Hash, Default)]
pub struct Index(usize);

impl View for Index {
    type V = usize;

    closed spec fn view(&self) -> usize {
        self.0
    }
}

impl Index {
    #[verifier::type_invariant]
    pub closed spec fn in_range(self) -> bool {
        self.0 < 9
    }

    /// What the type's invariant gives.
    pub proof fn lemma_in_range(self)
        requires
            self.in_range(),
        ensures
            self@ < 9,
    {
    }

    /// The index `i`, if there is one.
    pub fn build(i: usize) -> (r: Result<Self, UpdateError>)
        ensures
            i < 9 ==> r is Ok && r->Ok_0@ == i,
            i >= 9 ==> r == Err::<Self, UpdateError>(UpdateError::InvalidIndex),
    {
        if i >= 9 {
            Err(UpdateError::InvalidIndex)
        } else {
            Ok(Self(i))
        }
    }

    /// The index `i`, which the caller knows to be one.
    pub(crate) fn known(i: usize) -> (r: Self)
        requires
            i < 9,
        ensures
            r@ == i,
    {
        Self(i)
    }

    /// All nine indexes, ascending.
    pub fn indexes() -> (r: Vec<Self>)
        ensures
            r@.len() == 9,
            forall|i: int| 0 <= i < 9 ==> (#[trigger] r@[i])@ == i,
    {
        let mut out: Vec<Self> = Vec::new();
        let mut i: usize = 0;
        while i < 9
            invariant
                i <= 9,
                out@.len() == i,
                forall|k: int| 0 <= k < i ==> (#[trigger] out@[k])@ == k,
            decreases 9 - i,
        {
            out.push(Self(i));
            i = i + 1;
        }
        out
    }

    /// The number itself.
    pub fn inner(&self) -> (r: usize)
        ensures
            r == self@,
            r < 9,
    {
        proof {
            use_type_invariant(self);
        }
        self.0
    }
}

/// The value a cell can hold: 1..=9.
#[derive(Debug, PartialEq, Eq, PartialOrd, Ord, Clone, Copy, Hash)]
pub struct CellVal(usize);

impl View for CellVal {
    type V = usize;

    closed spec fn view(&self) -> usize {
        self.0
    }
}

impl CellVal {
    #[verifier::type_invariant]
    pub closed spec fn in_range(self) -> bool {
        1 <= self.0 <= 9
    }

    /// What the type's invariant gives.
    pub proof fn lemma_in_range(self)
        requires
            self.in_range(),
        ensures
            1 <= self@ <= 9,
    {
    }

    /// The number itself.
    pub fn inner(&self) -> (r: usize)
        ensures
            r == self@,
            1 <= r <= 9,
    {
        proof {
            use_type_invariant(self);
        }
        self.0
    }

    /// The cell value `i`, if there is one.
    pub fn build(i: usize) -> (r: Result<Self, UpdateError>)
        ensures
            1 <= i <= 9 ==> r is Ok && r->Ok_0@ == i,
            !(1 <= i <= 9) ==> r == Err::<Self, UpdateError>(UpdateError::InvalidCellVal),
    {
        if i > 9 || i == 0 {
            Err(UpdateError::InvalidCellVal)
        } else {
            Ok(Self(i))
        }
    }

    /// The cell value `i`, which the caller knows to be one.
    pub(crate) fn known(i: usize) -> (r: Self)
        requires
            1 <= i <= 9,
        ensures
            r@ == i,
    {
        Self(i)
    }

    /// All nine cell values, ascending.
    pub fn cell_vals() -> (r: Vec<Self>)
        ensures
            r@.len() == 9,
            forall|i: int| 0 <= i < 9 ==> (#[trigger] r@[i])@ == i + 1,
    {
        let mut out: Vec<Self> = Vec::new();
        let mut i: usize = 1;
        while i <= 9
            invariant
                1 <= i <= 10,
                out@.len() == i - 1,
                forall|k: int| 0 <= k < i - 1 ==> (#[trigger] out@[k])@ == k + 1,
            decreases 10 - i,
        {
            out.push(Self(i));
            i = i + 1;
        }
        out
    }
}

} // verus!
