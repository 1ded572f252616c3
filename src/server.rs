use vstd::prelude::*;

verus! {

/// The count of open connections and its ceiling. A connection over the ceiling is
/// refused at once, and refusing it leaves the count as it was.
pub struct ConnectionLimit {
    active: usize,
    max: usize,
}

impl ConnectionLimit {
    pub closed spec fn spec_active(&self) -> nat {
        self.active as nat
    }

    pub closed spec fn spec_max(&self) -> nat {
        self.max as nat
    }

    pub open spec fn wf(&self) -> bool {
        self.spec_active() <= self.spec_max()
    }

    pub fn new(max: usize) -> (r: Self)
        ensures
            r.wf(),
            r.spec_active() == 0,
            r.spec_max() == max,
    {
        ConnectionLimit { active: 0, max }
    }

    pub fn active(&self) -> (r: usize)
        ensures
            r == self.spec_active(),
    {
        self.active
    }

    pub fn max(&self) -> (r: usize)
        ensures
            r == self.spec_max(),
    {
        self.max
    }

    /// Admits a new connection when fewer than the ceiling are open.
    pub fn try_admit(&mut self) -> (r: bool)
        requires
            old(self).wf(),
        ensures
            final(self).wf(),
            final(self).spec_max() == old(self).spec_max(),
            r == (old(self).spec_active() < old(self).spec_max()),
            r ==> final(self).spec_active() == old(self).spec_active() + 1,
            !r ==> final(self).spec_active() == old(self).spec_active(),
    {
        if self.active < self.max {
            self.active = self.active + 1;
            true
        } else {
            false
        }
    }

    /// Counts one admitted connection as closed.
    pub fn release(&mut self)
        requires
            old(self).wf(),
        ensures
            final(self).wf(),
            final(self).spec_max() == old(self).spec_max(),
            final(self).spec_active() == if old(self).spec_active() > 0 {
                old(self).spec_active() - 1
            } else {
                0
            },
    {
        if self.active > 0 {
            self.active = self.active - 1;
        }
    }
}

} // verus!
