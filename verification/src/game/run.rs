//! Run state -- the roguelike layer that sits above individual fights.
//!
//! `Run` owns the one and only [`Player`]. Combat borrows it rather than
//! holding a copy, so there is never a second player to fall out of step.

use rand::rngs::StdRng;
use vstd::prelude::*;

use crate::game::chance::seeded;
use crate::game::content::{Content, STARTING_SPELLS};
use crate::game::entity::Player;
use crate::game::entity::player::{START_HP, START_MANA};
use crate::game::map::{NodeId, NodeKind, RunMap, budget_spec, generate, generated};
use crate::game::spell::SPELL_SLOTS;
use crate::game::status::ActiveStatus;

verus! {

pub const MAP_ROWS: usize = 5;

#[derive(Debug)]
pub struct Run {
    pub map: RunMap,
    pub player: Player,
    /// The node currently occupied. `None` before the first node is entered.
    pub position: Option<NodeId>,
    pub visited: Vec<NodeId>,
    pub seed: u64,
    pub rng: StdRng,
}

/// `r` is a run just begun from `content` with `seed`: a map of `MAP_ROWS`
/// rows as `generate` builds them (well formed, fights along the bottom row,
/// every node leading to the one roughly above it, every row wired as the
/// wiring steps build it), no node entered yet, and a fresh player carrying
/// the content's starting spells.
pub open spec fn fresh_run(r: Run, content: Content, seed: u64) -> bool {
    &&& r.wf()
    &&& generated(r.map)
    &&& r.map.rows@.len() == MAP_ROWS
    &&& r.position is None
    &&& r.visited@.len() == 0
    &&& r.seed == seed
    &&& r.player.wf()
    &&& r.player.hp == START_HP && r.player.max_hp == START_HP
    &&& r.player.mana == START_MANA && r.player.max_mana == START_MANA
    &&& r.player.gold == 0
    &&& r.player.statuses@ == Seq::<ActiveStatus>::empty()
    &&& r.player.spells@.len() == (if content.spells@.len() < STARTING_SPELLS {
        content.spells@.len()
    } else {
        STARTING_SPELLS as nat
    })
    &&& forall|i: int| 0 <= i < r.player.spells@.len() ==> (#[trigger] r.player.spells@[i])@ == content.spells@[i]@
}

impl Run {
    /// A well-formed map, and a position on it.
    pub open spec fn wf(self) -> bool {
        &&& self.map.wf()
        &&& (self.position matches Some(id) ==> id < self.map.nodes@.len())
    }

    /// The nodes the player may move to: the start before the first move,
    /// then the exits of the current node.
    pub open spec fn available_spec(self) -> Seq<NodeId> {
        match self.position {
            None => seq![self.map.rows@[0]@[0]],
            Some(id) => self.map.nodes@[id as int].next@,
        }
    }

    /// The row of the current node, zero before the first move.
    pub open spec fn depth_spec(self) -> int {
        match self.position {
            None => 0,
            Some(id) => self.map.nodes@[id as int].row as int,
        }
    }

    /// Whether the boss node is the one occupied.
    pub open spec fn complete_spec(self) -> bool {
        self.position == Some(self.map.boss_id())
    }

    pub fn new(content: &Content, seed: u64) -> (r: Self)
        ensures
            fresh_run(r, *content, seed),
    {
        let mut rng = seeded(seed);
        let map = generate(MAP_ROWS, &mut rng);
        let spells = content.starting_spells();
        let player = Player::new(spells);
        proof {
            assert(spells@.len() <= SPELL_SLOTS);
            assert(spells@.take(spells@.len() as int) =~= spells@);
        }
        Run { map, player, position: None, visited: Vec::new(), seed, rng }
    }

    /// Nodes the player may move to right now.
    pub fn available(&self) -> (r: Vec<NodeId>)
        requires
            self.wf(),
        ensures
            r@ == self.available_spec(),
    {
        match self.position {
            None => {
                let mut r = Vec::new();
                r.push(self.map.start());
                proof {
                    assert(r@ =~= seq![self.map.rows@[0]@[0]]);
                }
                r
            },
            Some(id) => self.map.node(id).next.clone(),
        }
    }

    pub fn can_enter(&self, id: NodeId) -> (r: bool)
        requires
            self.wf(),
        ensures
            r == self.available_spec().contains(id),
    {
        let avail = self.available();
        let n = avail.len();
        let mut i: usize = 0;
        while i < n
            invariant
                n == avail@.len(),
                avail@ == self.available_spec(),
                i <= n,
                forall|k: int| 0 <= k < i ==> avail@[k] != id,
            decreases n - i,
        {
            if avail[i] == id {
                return true;
            }
            i = i + 1;
        }
        false
    }

    /// Move to node `id`, which must be one of the available ones.
    pub fn enter(&mut self, id: NodeId)
        requires
            old(self).wf(),
            old(self).available_spec().contains(id),
        ensures
            final(self).wf(),
            *final(self) == (Run { position: Some(id), visited: final(self).visited, ..*old(self) }),
            final(self).visited@ == old(self).visited@.push(id),
    {
        proof {
            lemma_climb(*self);
        }
        self.position = Some(id);
        self.visited.push(id);
    }

    pub fn current_kind(&self) -> (r: Option<NodeKind>)
        requires
            self.wf(),
        ensures
            r == (match self.position {
                None => None,
                Some(id) => Some(self.map.nodes@[id as int].kind),
            }),
    {
        match self.position {
            None => None,
            Some(id) => Some(self.map.node(id).kind),
        }
    }

    pub fn depth(&self) -> (r: usize)
        requires
            self.wf(),
        ensures
            r == self.depth_spec(),
    {
        match self.position {
            None => 0,
            Some(id) => self.map.node(id).row,
        }
    }

    /// Difficulty budget for a fight at the current depth.
    pub fn encounter_budget(&self) -> (b: u8)
        requires
            self.wf(),
            2 + 2 * self.depth_spec() <= usize::MAX,
        ensures
            b == budget_spec(self.depth_spec()),
    {
        let d = self.depth();
        self.map.budget_for_row(d)
    }

    /// True once the boss node has been cleared.
    pub fn is_complete(&self) -> (r: bool)
        requires
            self.wf(),
        ensures
            r == self.complete_spec(),
    {
        match self.position {
            None => false,
            Some(id) => id == self.map.boss(),
        }
    }
}

/// A climb never dead-ends and always ends at the boss: until the boss is
/// reached some node is available, every available node lies one row above
/// the current one (on the bottom row before the first move), and the boss
/// is reached exactly when the top row is.
pub proof fn lemma_climb(run: Run)
    requires
        run.wf(),
    ensures
        !run.complete_spec() ==> run.available_spec().len() > 0,
        forall|k: int|
            0 <= k < run.available_spec().len() ==> (#[trigger] run.available_spec()[k]) < run.map.nodes@.len()
                && run.map.nodes@[run.available_spec()[k] as int].row == run.depth_spec() + (if run.position is None {
                0int
            } else {
                1int
            }),
        run.complete_spec() <==> (run.position is Some && run.depth_spec() == run.map.last_row()),
{
    let m = run.map;
    let nodes = m.nodes@;
    assert(crate::game::map::laid_out(nodes, m.rows@));
    match run.position {
        None => {
            assert(m.rows@[0]@.len() >= 2);
            assert(run.available_spec()[0] == m.rows@[0]@[0]);
        },
        Some(id) => {
            assert(crate::game::map::exits_ok(nodes, m.last_row(), id as int));
            let n = nodes[id as int];
            if n.row == m.last_row() {
                assert(m.rows@[n.row as int]@[n.col as int] == id);
            }
            if id == m.boss_id() {
                assert(nodes[m.boss_id() as int].row == m.last_row());
            }
        },
    }
}

} // verus!
