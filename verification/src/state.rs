use vstd::prelude::*;

verus! {

/// The abstract lifecycle state of a library record.
pub enum LifeState {
    /// Loaded in the currently running transaction, at the given slot of its
    /// new-library vector.
    New { idx: int },
    /// Currently undergoing relocation.
    Relocating,
    /// Fully relocated and ready for use.
    Relocated,
}

/// Represents the current lifecycle state of a dynamic library.
///
/// The state uses a compact `u8` representation:
/// - `[0, 254)`: newly loaded library, value is the index in the current
///   loading batch;
/// - `254`: currently undergoing relocation;
/// - `255`: successfully relocated and ready for use.
#[derive(Clone, Copy, PartialEq, Eq, Structural, Debug)]
pub struct DylibState {
    pub code: u8,
}

impl DylibState {
    /// The abstract state this encoding stands for.
    pub open spec fn view(self) -> LifeState {
        if self.code == 255 {
            LifeState::Relocated
        } else if self.code == 254 {
            LifeState::Relocating
        } else {
            LifeState::New { idx: self.code as int }
        }
    }

    /// A fresh state: slot 0 of a new loading batch.
    pub fn new() -> (r: DylibState)
        ensures
            r@ == (LifeState::New { idx: 0int }),
    {
        DylibState { code: 0 }
    }

    /// Returns true if the library is fully relocated.
    pub fn is_relocated(&self) -> (r: bool)
        ensures
            r == (self@ is Relocated),
    {
        self.code == 255
    }

    /// If the library is in a "new" state, returns its batch index.
    pub fn get_new_idx(&self) -> (r: Option<u8>)
        ensures
            match r {
                Some(i) => self@ == (LifeState::New { idx: i as int }),
                None => self@ is Relocating || self@ is Relocated,
            },
    {
        if self.code >= 254 {
            None
        } else {
            Some(self.code)
        }
    }

    /// Transitions the state to `Relocated`.
    pub fn set_relocated(&mut self)
        ensures
            final(self)@ is Relocated,
    {
        self.code = 255;
    }

    /// Transitions the state to `Relocating`.
    pub fn set_relocating(&mut self)
        ensures
            final(self)@ is Relocating,
    {
        self.code = 254;
    }

    /// Sets the state to a "new" library with the given batch index.
    ///
    /// The encoding reserves 254 and 255, so a batch holds at most 254 entries.
    pub fn set_new_idx(&mut self, idx: u8)
        requires
            idx < 254,
        ensures
            final(self)@ == (LifeState::New { idx: idx as int }),
    {
        self.code = idx;
    }
}

} // verus!
