//! Quantized ages: how many windows ago a key was last touched.

use vstd::prelude::*;

verus! {

/// The newest slice that holds a key, coldest greatest.
#[derive(Clone, Copy, Debug, PartialEq, Eq, PartialOrd, Ord, Structural)]
pub enum Age {
    /// Slices back from the current window, which is number 0.
    Window(u16),
    /// Colder than everything that is remembered.
    Miss,
}

/// An age's place in the order of ages.
pub open spec fn coldness(age: Age) -> int {
    match age {
        Age::Window(w) => w as int,
        Age::Miss => 0x1_0000,
    }
}

impl Age {
    /// Whether an age is as cold as another, or colder.
    pub fn is_at_least(self, other: Age) -> (colder: bool)
        ensures
            colder == (coldness(self) >= coldness(other)),
    {
        match (self, other) {
            (Age::Miss, _) => true,
            (Age::Window(_), Age::Miss) => false,
            (Age::Window(a), Age::Window(b)) => a >= b,
        }
    }
}

// ---- laws -------------------------------------------------------------------------------------

/// Of two windows the one further back is the colder, and a miss is colder than every window.
pub proof fn older_windows_are_colder(a: u16, b: u16)
    ensures
        coldness(Age::Window(a)) < coldness(Age::Window(b)) <==> a < b,
        coldness(Age::Window(a)) < coldness(Age::Miss),
{
}

} // verus!
