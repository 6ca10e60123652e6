//! A running sum that cannot overflow while it is added to: the sum of more
//! terms than memory holds, each of up to 96 bits, and whether it fits in
//! 128 bits at the end.

use crate::error::{CodecError, Error};
use vstd::prelude::*;

verus! {

/// The greatest size of a term: 2 to the power of 95, the sign apart.
pub(crate) const TERM_LIMIT: i128 = 0x8000_0000_0000_0000_0000_0000;

/// The greatest number of terms.
pub(crate) const TERMS_LIMIT: i128 = 0x1_0000_0000_0000_0000;

/// A sum held as a count of units of 2 to the power of 96 and a rest
/// below one unit.
#[derive(Clone, Copy, Debug, PartialEq, Eq)]
pub(crate) struct WideSum {
    units: i128,
    rest: i128,
}

/// A number, where 128 bits hold it.
pub open spec fn fitted(sum: int) -> Result<int, Error> {
    if i128::MIN <= sum <= i128::MAX {
        Ok(sum)
    } else {
        Err(Error::Codec(CodecError::OutOfRange))
    }
}

impl View for WideSum {
    type V = int;

    closed spec fn view(&self) -> int {
        self.units * 0x1_0000_0000_0000_0000_0000_0000 + self.rest
    }
}

impl WideSum {
    /// The rest is below one unit, and the units are no more than terms
    /// can have brought.
    pub(crate) closed spec fn wf(&self) -> bool {
        &&& 0 <= self.rest < 0x1_0000_0000_0000_0000_0000_0000
        &&& -TERMS_LIMIT <= self.units <= TERMS_LIMIT
    }

    /// A bound on the number of terms that the sum has taken: the size of
    /// its count of units.
    pub(crate) closed spec fn reach(&self) -> int {
        if self.units < 0 {
            -self.units
        } else {
            self.units as int
        }
    }

    /// The sum of no terms.
    pub(crate) fn new() -> (r: WideSum)
        ensures
            r.wf(),
            r@ == 0,
            r.reach() == 0,
    {
        WideSum { units: 0, rest: 0 }
    }

    /// Adds `term`.
    pub(crate) fn add_term(&mut self, term: i128)
        requires
            old(self).wf(),
            old(self).reach() < TERMS_LIMIT,
            -TERM_LIMIT <= term <= TERM_LIMIT,
        ensures
            final(self).wf(),
            final(self)@ == old(self)@ + term,
            final(self).reach() <= old(self).reach() + 1,
    {
        let moved: i128 = self.rest + term;
        if moved < 0 {
            self.rest = moved + 0x1_0000_0000_0000_0000_0000_0000;
            self.units = self.units - 1;
        } else if moved >= 0x1_0000_0000_0000_0000_0000_0000 {
            self.rest = moved - 0x1_0000_0000_0000_0000_0000_0000;
            self.units = self.units + 1;
        } else {
            self.rest = moved;
        }
    }

    /// The sum, where 128 bits hold it.
    pub(crate) fn total(&self) -> (r: Result<i128, Error>)
        requires
            self.wf(),
        ensures
            match fitted(self@) {
                Ok(v) => r == Ok::<i128, Error>(v as i128),
                Err(e) => r == Err::<i128, Error>(e),
            },
    {
        if self.units < -0x8000_0000 || self.units >= 0x8000_0000 {
            return Err(Error::Codec(CodecError::OutOfRange));
        }
        Ok(self.units * 0x1_0000_0000_0000_0000_0000_0000 + self.rest)
    }
}

} // verus!
