use vstd::prelude::*;

use crate::game::element::Element;
use crate::game::status::Statuses;
use crate::text::{decimal, decimal_view};

verus! {

/// An enemy as authored in content. Adding one is a single data entry -- it
/// enters the pool and starts appearing at the depth its difficulty implies.
#[derive(Debug, Clone)]
pub struct EnemyKind {
    pub name: String,
    pub max_hp: u16,
    pub power: u16,
    pub element: Element,
    /// Damage subtracted from incoming hits, unless the spell pierces.
    pub armor: u16,
    /// Weight for encounter generation. Higher means tougher.
    pub difficulty: u8,
    /// ASCII art, one string per line.
    pub art: Vec<String>,
}

/// What an enemy intends to do on its next turn.
#[derive(Debug, Clone, Copy, PartialEq, Eq, Structural)]
pub enum Intent {
    Attack(u16),
}

impl Intent {
    pub open spec fn label_view(self) -> Seq<char> {
        match self {
            Intent::Attack(n) => "Attack "@ + decimal_view(n as nat),
        }
    }

    /// E.g. "Attack 4".
    pub fn label(self) -> (r: String)
        ensures
            r@ == self.label_view(),
    {
        match self {
            Intent::Attack(n) => {
                let s = String::from_str("Attack ");
                let d = decimal(n as u64);
                s.concat(d.as_str())
            },
        }
    }
}

/// A live enemy in a fight.
#[derive(Debug, Clone)]
pub struct Enemy {
    pub name: String,
    pub hp: u16,
    pub max_hp: u16,
    pub power: u16,
    pub element: Element,
    pub armor: u16,
    pub art: Vec<String>,
    pub statuses: Statuses,
    pub intent: Intent,
}

impl Enemy {
    /// A fresh enemy of this kind: full health, no statuses, about to attack
    /// for its power.
    pub open spec fn fresh_from(self, kind: EnemyKind) -> bool {
        &&& self.name@ == kind.name@
        &&& self.hp == kind.max_hp
        &&& self.max_hp == kind.max_hp
        &&& self.power == kind.power
        &&& self.element == kind.element
        &&& self.armor == kind.armor
        &&& self.art.deep_view() == kind.art.deep_view()
        &&& self.statuses@ == Seq::<crate::game::status::ActiveStatus>::empty()
        &&& self.statuses.wf()
        &&& self.intent == Intent::Attack(kind.power)
    }

    pub fn from_kind(kind: &EnemyKind) -> (r: Self)
        ensures
            r.fresh_from(*kind),
    {
        let art = kind.art.clone();
        proof {
            assert(art.deep_view() =~= kind.art.deep_view()) by {
                assert forall|i: int| 0 <= i < art@.len() implies art.deep_view()[i]
                    == kind.art.deep_view()[i] by {
                    assert(cloned::<String>(kind.art@[i], art@[i]));
                }
            }
        }
        Enemy {
            name: kind.name.clone(),
            hp: kind.max_hp,
            max_hp: kind.max_hp,
            power: kind.power,
            element: kind.element,
            armor: kind.armor,
            art,
            statuses: Statuses::new(),
            intent: Intent::Attack(kind.power),
        }
    }

    pub fn is_alive(&self) -> (r: bool)
        ensures
            r == (self.hp > 0),
    {
        self.hp > 0
    }
}

} // verus!
