//! The shared move register.
//!
//! A last-write-wins slot holding the best movement known so far, overwritten
//! after every completed search depth and read once, at the deadline, by an
//! external supervisor.  The register records, in ghost state, every value
//! ever published, so the anytime drivers can state exactly what they stored
//! after each completed depth.  Cross-process transport of the slot is the
//! supervisor's concern, outside this library: here the register is the
//! in-process model every publication goes through.

use vstd::prelude::*;
use crate::game::Movement;

verus! {

/// Last-write-wins register of the best movement known so far.
pub struct MoveRegister {
    current: Option<Movement>,
    log: Ghost<Seq<Option<Movement>>>,
}

impl MoveRegister {
    /// Every value ever stored, oldest first.
    pub closed spec fn published(&self) -> Seq<Option<Movement>> {
        self.log@
    }

    /// The value a reader observes now: the most recently stored one.
    pub closed spec fn latest(&self) -> Option<Movement> {
        self.current
    }

    /// Connects to a fresh register holding no movement.
    pub fn connect() -> (r: MoveRegister)
        ensures
            r.published() == Seq::<Option<Movement>>::empty(),
            r.latest() is None,
    {
        MoveRegister { current: None, log: Ghost(Seq::empty()) }
    }

    /// Overwrites the published value.  Safe to call repeatedly; a reader
    /// observes the latest fully stored value, never a partial one.
    pub fn store(&mut self, m: Option<Movement>)
        ensures
            final(self).published() == old(self).published().push(m),
            final(self).latest() == m,
    {
        self.current = m;
        proof {
            self.log@ = self.log@.push(m);
        }
    }

    /// Reads the latest published value.
    pub fn read(&self) -> (r: Option<Movement>)
        ensures
            r == self.latest(),
    {
        self.current
    }
}

} // verus!
