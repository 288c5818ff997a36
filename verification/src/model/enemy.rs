use vstd::prelude::*;

verus! {

#[derive(Debug, Clone)]
pub struct Enemy {
    name: String,
    health: u8,
}

} // verus!
