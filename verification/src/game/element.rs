//! Elements. The vocabulary that spell combination is keyed on.

use vstd::prelude::*;

verus! {

/// Declaration order is load-bearing: it is the final, deterministic tiebreak
/// when two elements in an incantation have equal power.
#[derive(Debug, Clone, Copy, PartialEq, Eq, PartialOrd, Ord, Hash, Structural)]
pub enum Element {
    // Base elements. These are what component spells carry.
    Flame,
    Water,
    Ice,
    Shock,
    Earth,
    Gust,
    Toxic,
    // Fusion products. Only ever produced by combining two base elements.
    Steam,
    Magma,
    Blight,
    Blizzard,
}

/// How many elements there are.
pub const ELEMENT_COUNT: usize = 11;

impl Element {
    pub const ALL: [Element; 11] = [
        Element::Flame,
        Element::Water,
        Element::Ice,
        Element::Shock,
        Element::Earth,
        Element::Gust,
        Element::Toxic,
        Element::Steam,
        Element::Magma,
        Element::Blight,
        Element::Blizzard,
    ];

    /// Position in declaration order.
    pub open spec fn rank(self) -> nat {
        match self {
            Element::Flame => 0,
            Element::Water => 1,
            Element::Ice => 2,
            Element::Shock => 3,
            Element::Earth => 4,
            Element::Gust => 5,
            Element::Toxic => 6,
            Element::Steam => 7,
            Element::Magma => 8,
            Element::Blight => 9,
            Element::Blizzard => 10,
        }
    }

    /// The element at a position in declaration order.
    pub open spec fn at_rank(i: nat) -> Element {
        if i == 0 {
            Element::Flame
        } else if i == 1 {
            Element::Water
        } else if i == 2 {
            Element::Ice
        } else if i == 3 {
            Element::Shock
        } else if i == 4 {
            Element::Earth
        } else if i == 5 {
            Element::Gust
        } else if i == 6 {
            Element::Toxic
        } else if i == 7 {
            Element::Steam
        } else if i == 8 {
            Element::Magma
        } else if i == 9 {
            Element::Blight
        } else {
            Element::Blizzard
        }
    }

    pub open spec fn name_view(self) -> Seq<char> {
        match self {
            Element::Flame => "Flame"@,
            Element::Water => "Water"@,
            Element::Ice => "Ice"@,
            Element::Shock => "Shock"@,
            Element::Earth => "Earth"@,
            Element::Gust => "Gust"@,
            Element::Toxic => "Toxic"@,
            Element::Steam => "Steam"@,
            Element::Magma => "Magma"@,
            Element::Blight => "Blight"@,
            Element::Blizzard => "Blizzard"@,
        }
    }

    /// True for the elements that only a fusion produces.
    pub open spec fn fusion_only(self) -> bool {
        self is Steam || self is Magma || self is Blight || self is Blizzard
    }

    pub fn name(self) -> (r: &'static str)
        ensures
            r@ == self.name_view(),
    {
        match self {
            Element::Flame => "Flame",
            Element::Water => "Water",
            Element::Ice => "Ice",
            Element::Shock => "Shock",
            Element::Earth => "Earth",
            Element::Gust => "Gust",
            Element::Toxic => "Toxic",
            Element::Steam => "Steam",
            Element::Magma => "Magma",
            Element::Blight => "Blight",
            Element::Blizzard => "Blizzard",
        }
    }

    /// True for elements that only exist as the result of a fusion.
    pub fn is_fusion(self) -> (r: bool)
        ensures
            r == self.fusion_only(),
    {
        match self {
            Element::Steam | Element::Magma | Element::Blight | Element::Blizzard => true,
            _ => false,
        }
    }

    /// Position in declaration order, the order every tiebreak follows.
    pub fn index(self) -> (r: usize)
        ensures
            r == self.rank(),
            r < ELEMENT_COUNT,
    {
        match self {
            Element::Flame => 0,
            Element::Water => 1,
            Element::Ice => 2,
            Element::Shock => 3,
            Element::Earth => 4,
            Element::Gust => 5,
            Element::Toxic => 6,
            Element::Steam => 7,
            Element::Magma => 8,
            Element::Blight => 9,
            Element::Blizzard => 10,
        }
    }

    /// The element at position `i` of declaration order.
    pub fn from_index(i: usize) -> (r: Element)
        requires
            i < ELEMENT_COUNT,
        ensures
            r == Element::at_rank(i as nat),
            r.rank() == i,
    {
        if i == 0 {
            Element::Flame
        } else if i == 1 {
            Element::Water
        } else if i == 2 {
            Element::Ice
        } else if i == 3 {
            Element::Shock
        } else if i == 4 {
            Element::Earth
        } else if i == 5 {
            Element::Gust
        } else if i == 6 {
            Element::Toxic
        } else if i == 7 {
            Element::Steam
        } else if i == 8 {
            Element::Magma
        } else if i == 9 {
            Element::Blight
        } else {
            Element::Blizzard
        }
    }
}

/// Ranks are a bijection between elements and `0..ELEMENT_COUNT`.
pub proof fn lemma_rank_roundtrip(e: Element)
    ensures
        e.rank() < ELEMENT_COUNT,
        Element::at_rank(e.rank()) == e,
{
}

/// `Element::ALL` lists every element exactly once, in declaration order:
/// each element sits at its own rank, and the entry at each place has that
/// place as its rank.
pub proof fn lemma_all_lists_every_element(e: Element)
    ensures
        Element::ALL[e.rank() as int] == e,
        forall|i: int| 0 <= i < ELEMENT_COUNT ==> (#[trigger] Element::ALL[i]).rank() == i,
{
}

} // verus!
