use vstd::prelude::*;

verus! {

/// An operation the command line can ask for.
#[derive(Debug, Clone, Copy, PartialEq, Eq, Structural)]
pub enum Opperation {
    Create,
    Delete {},
}

} // verus!
