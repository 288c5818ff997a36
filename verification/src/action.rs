//! UI intents. Distinct from `game::combat::Command`, which is a request to
//! change the simulation and can be refused.

use vstd::prelude::*;

verus! {

#[derive(Debug, Clone, Copy, PartialEq, Eq, Structural)]
pub enum Action {
    Quit,
    Restart,

    // Map
    MapNext,
    MapPrev,
    MapEnter,

    // Combat
    AddComponent(usize),
    Undo,
    Clear,
    TargetNext,
    TargetPrev,
    Cast,
    EndTurn,

    // Event
    ChoiceNext,
    ChoicePrev,
    ChoiceSelect,

    /// Dismiss a result and move on.
    Continue,

    // Focus navigation: arrows move within or between the zones of the
    // current screen, and confirm acts on what is focused.
    NavUp,
    NavDown,
    NavLeft,
    NavRight,
    Confirm,
}

} // verus!
