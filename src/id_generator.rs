use vstd::prelude::*;

verus! {

/// Issues unique, strictly increasing identifiers, starting at 1.
pub struct IDGenerator {
    counter: u32,
}

impl IDGenerator {
    /// The last identifier handed out (0 before the first).
    pub closed spec fn last(&self) -> nat {
        self.counter as nat
    }

    /// Whether another identifier can still be issued without overflow.
    pub open spec fn can_issue(&self) -> bool {
        self.last() < u32::MAX
    }

    pub fn new() -> (r: Self)
        ensures
            r.last() == 0,
    {
        IDGenerator { counter: 0 }
    }

    pub fn has_next(&self) -> (r: bool)
        ensures
            r == self.can_issue(),
    {
        self.counter < u32::MAX
    }

    pub fn generate_id(&mut self) -> (id: u32)
        requires
            old(self).can_issue(),
        ensures
            id == old(self).last() + 1,
            final(self).last() == id,
    {
        self.counter = self.counter + 1;
        self.counter
    }
}

} // verus!
