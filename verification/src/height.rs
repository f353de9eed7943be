use vstd::prelude::*;

verus! {

/// Height of a point (metres).
#[derive(Clone, Copy, PartialEq, Eq, Structural, Debug)]
pub struct Height(pub i16);

/// A single read-only sample of the world map: elevation plus water flag.
pub struct Pixel {
    pub height: Height,
    pub is_water: bool,
}

} // verus!
