//! Combat: the incantation resolver, the rule table, and the turn state machine.

pub mod incantation;
pub mod resolve;
pub mod rules;

use vstd::prelude::*;

use crate::game::combat::incantation::{
    ResolvedSpell, ResolvedView, cost_of, lemma_resolution_congruent, lemma_sum_prefix_le,
    resolution, resolve as resolve_incantation,
};
use crate::game::combat::resolve::{damage_against, damage_spec, enemy_damage, enemy_damage_spec};
use crate::game::combat::rules::{Rules, Targeting};
use crate::game::entity::{Enemy, Intent, Player};
use crate::game::spell::{SlotIndex, Spell};
use crate::game::status::{Status, rounds_in};
use crate::text::{decimal, decimal_view};

verus! {

#[derive(Debug, Clone, Copy, PartialEq, Eq, Structural)]
pub enum Phase {
    PlayerTurn,
    Won,
    Lost,
}

/// A request to change the fight. Commands can be refused -- that is the
/// whole reason they are separate from events.
#[derive(Debug, Clone, Copy, PartialEq, Eq, Structural)]
pub enum Command {
    AddComponent(SlotIndex),
    UndoComponent,
    ClearBuild,
    TargetNext,
    TargetPrev,
    Cast,
    EndTurn,
}

/// A statement of fact: something that already happened. The combat log is
/// just a list of these.
#[derive(Debug, Clone, PartialEq, Eq)]
pub enum Event {
    Cast { name: String },
    Damaged { target: String, amount: u16 },
    StatusApplied { target: String, status: Status },
    Died { name: String },
    EnemyAttacked { name: String, amount: u16 },
    StatusTicked { target: String, amount: u16 },
    TurnEnded,
    Refused(&'static str),
    Won,
    Lost,
}

/// An event seen as plain values.
pub enum EventView {
    Cast { name: Seq<char> },
    Damaged { target: Seq<char>, amount: u16 },
    StatusApplied { target: Seq<char>, status: Status },
    Died { name: Seq<char> },
    EnemyAttacked { name: Seq<char>, amount: u16 },
    StatusTicked { target: Seq<char>, amount: u16 },
    TurnEnded,
    Refused(Seq<char>),
    Won,
    Lost,
}

impl View for Event {
    type V = EventView;

    open spec fn view(&self) -> EventView {
        match self {
            Event::Cast { name } => EventView::Cast { name: name@ },
            Event::Damaged { target, amount } => EventView::Damaged { target: target@, amount: *amount },
            Event::StatusApplied { target, status } => EventView::StatusApplied {
                target: target@,
                status: *status,
            },
            Event::Died { name } => EventView::Died { name: name@ },
            Event::EnemyAttacked { name, amount } => EventView::EnemyAttacked {
                name: name@,
                amount: *amount,
            },
            Event::StatusTicked { target, amount } => EventView::StatusTicked {
                target: target@,
                amount: *amount,
            },
            Event::TurnEnded => EventView::TurnEnded,
            Event::Refused(why) => EventView::Refused(why@),
            Event::Won => EventView::Won,
            Event::Lost => EventView::Lost,
        }
    }
}

impl EventView {
    /// The log line that reports this event.
    pub open spec fn message_view(self) -> Seq<char> {
        match self {
            EventView::Cast { name } => "You cast "@ + name + "."@,
            EventView::Damaged { target, amount } => "  "@ + target + " takes "@ + decimal_view(amount as nat) + " damage."@,
            EventView::StatusApplied { target, status } => "  "@ + target + " is "@ + status.name_view() + "."@,
            EventView::Died { name } => "  "@ + name + " falls."@,
            EventView::EnemyAttacked { name, amount } => name + " hits you for "@ + decimal_view(amount as nat) + "."@,
            EventView::StatusTicked { target, amount } => "  "@ + target + " suffers "@ + decimal_view(amount as nat) + "."@,
            EventView::TurnEnded => "-- turn --"@,
            EventView::Refused(why) => "("@ + why + ")"@,
            EventView::Won => "The way is clear."@,
            EventView::Lost => "You fall."@,
        }
    }
}

impl Event {
    /// The log line that reports this event.
    pub fn message(&self) -> (r: String)
        ensures
            r@ == self@.message_view(),
    {
        match self {
            Event::Cast { name } => String::from_str("You cast ").concat(name.as_str()).concat("."),
            Event::Damaged { target, amount } => String::from_str("  ").concat(target.as_str()).concat(" takes ").concat(
                decimal(*amount as u64).as_str(),
            ).concat(" damage."),
            Event::StatusApplied { target, status } => String::from_str("  ").concat(target.as_str()).concat(" is ").concat(
                status.name(),
            ).concat("."),
            Event::Died { name } => String::from_str("  ").concat(name.as_str()).concat(" falls."),
            Event::EnemyAttacked { name, amount } => name.clone().concat(" hits you for ").concat(
                decimal(*amount as u64).as_str(),
            ).concat("."),
            Event::StatusTicked { target, amount } => String::from_str("  ").concat(target.as_str()).concat(" suffers ").concat(
                decimal(*amount as u64).as_str(),
            ).concat("."),
            Event::TurnEnded => String::from_str("-- turn --"),
            Event::Refused(why) => String::from_str("(").concat(why).concat(")"),
            Event::Won => String::from_str("The way is clear."),
            Event::Lost => String::from_str("You fall."),
        }
    }

    /// A copy of this event.
    pub fn copy(&self) -> (e: Event)
        ensures
            e == *self,
    {
        match self {
            Event::Cast { name } => Event::Cast { name: name.clone() },
            Event::Damaged { target, amount } => Event::Damaged { target: target.clone(), amount: *amount },
            Event::StatusApplied { target, status } => Event::StatusApplied { target: target.clone(), status: *status },
            Event::Died { name } => Event::Died { name: name.clone() },
            Event::EnemyAttacked { name, amount } => Event::EnemyAttacked { name: name.clone(), amount: *amount },
            Event::StatusTicked { target, amount } => Event::StatusTicked { target: target.clone(), amount: *amount },
            Event::TurnEnded => Event::TurnEnded,
            Event::Refused(why) => Event::Refused(*why),
            Event::Won => Event::Won,
            Event::Lost => Event::Lost,
        }
    }
}

/// The views of a list of events.
pub open spec fn event_views(s: Seq<Event>) -> Seq<EventView> {
    s.map_values(|e: Event| e@)
}

/// The spells a build names, skipping slots that hold no spell.
pub open spec fn build_seq(build: Seq<SlotIndex>, spells: Seq<Spell>) -> Seq<Spell>
    decreases build.len(),
{
    if build.len() == 0 {
        Seq::empty()
    } else {
        let rest = build_seq(build.drop_last(), spells);
        if build.last() < spells.len() {
            rest.push(spells[build.last() as int])
        } else {
            rest
        }
    }
}

/// The indices of the living enemies, in order.
pub open spec fn living(es: Seq<Enemy>) -> Seq<usize>
    decreases es.len(),
{
    if es.len() == 0 {
        Seq::empty()
    } else {
        let rest = living(es.drop_last());
        if es.last().hp > 0 {
            rest.push((es.len() - 1) as usize)
        } else {
            rest
        }
    }
}

/// Whether every enemy is dead.
pub open spec fn all_dead(es: Seq<Enemy>) -> bool {
    forall|i: int| 0 <= i < es.len() ==> (#[trigger] es[i]).hp == 0
}

/// The living list holds exactly the living indices, ascending.
pub proof fn lemma_living(es: Seq<Enemy>)
    requires
        es.len() <= usize::MAX,
    ensures
        forall|k: int|
            0 <= k < living(es).len() ==> (#[trigger] living(es)[k]) < es.len() && es[living(
                es,
            )[k] as int].hp > 0,
        forall|k1: int, k2: int|
            0 <= k1 < k2 < living(es).len() ==> #[trigger] living(es)[k1] < #[trigger] living(es)[k2],
        forall|i: int| 0 <= i < es.len() && (#[trigger] es[i]).hp > 0 ==> living(es).contains(i as usize),
        living(es).len() == 0 <==> all_dead(es),
    decreases es.len(),
{
    if es.len() > 0 {
        let d = es.drop_last();
        lemma_living(d);
        let ld = living(d);
        let le = living(es);
        let last = (es.len() - 1) as usize;
        assert forall|k: int| 0 <= k < ld.len() implies le[k] == ld[k] by {
            if es.last().hp > 0 {
                assert(le == ld.push(last));
            }
        }
        assert forall|k: int| 0 <= k < le.len() implies (#[trigger] le[k]) < es.len() && es[le[k] as int].hp > 0 by {
            if k < ld.len() {
                assert(d[ld[k] as int] == es[ld[k] as int]);
            } else {
                assert(le == ld.push(last));
            }
        }
        assert forall|k1: int, k2: int| 0 <= k1 < k2 < le.len() implies #[trigger] le[k1] < #[trigger] le[k2] by {
            if k2 >= ld.len() {
                assert(le == ld.push(last));
            }
        }
        assert forall|i: int| 0 <= i < es.len() && (#[trigger] es[i]).hp > 0 implies le.contains(i as usize) by {
            if i < es.len() - 1 {
                assert(d[i] == es[i]);
                assert(ld.contains(i as usize));
                let k = choose|k: int| 0 <= k < ld.len() && ld[k] == i as usize;
                assert(le[k] == i as usize);
            } else {
                assert(le == ld.push(last));
                assert(le[le.len() - 1] == i as usize);
            }
        }
        if all_dead(es) {
            assert(all_dead(d)) by {
                assert forall|i: int| 0 <= i < d.len() implies (#[trigger] d[i]).hp == 0 by {
                    assert(d[i] == es[i]);
                }
            }
            assert(es[es.len() - 1].hp == 0);
        }
        if le.len() == 0 {
            assert forall|i: int| 0 <= i < es.len() implies (#[trigger] es[i]).hp == 0 by {
                if es[i].hp > 0 {
                    assert(le.contains(i as usize));
                }
            }
        }
    }
}

/// The position of `t` in the living list, or 0 when it is not there.
pub open spec fn living_pos(l: Seq<usize>, t: usize) -> int {
    if l.contains(t) {
        choose|k: int| 0 <= k < l.len() && l[k] == t
    } else {
        0
    }
}

/// The cursor after stepping to the next (or previous) living enemy,
/// wrapping. With no one alive the cursor stays put.
pub open spec fn stepped_target(es: Seq<Enemy>, t: usize, forward: bool) -> usize {
    let l = living(es);
    if l.len() == 0 {
        t
    } else {
        let pos = living_pos(l, t);
        let next = if forward {
            (pos + 1) % (l.len() as int)
        } else {
            (pos + l.len() - 1) % (l.len() as int)
        };
        l[next]
    }
}

/// The cursor, moved to the first living enemy when it points at a dead or
/// missing one (and left alone when no one is alive).
pub open spec fn valid_target(es: Seq<Enemy>, t: usize) -> usize {
    if t < es.len() && es[t as int].hp > 0 {
        t
    } else if living(es).len() > 0 {
        living(es)[0]
    } else {
        t
    }
}

/// Remaining rounds of `st` after applying each `(status, rounds)` in turn
/// to a status that had `r` rounds.
pub open spec fn applied_rounds(r: nat, list: Seq<(Status, u8)>, st: Status) -> nat
    decreases list.len(),
{
    if list.len() == 0 {
        r
    } else {
        let a = applied_rounds(r, list.drop_last(), st);
        let (s, k) = list.last();
        if s == st && k > 0 && k > a {
            k as nat
        } else {
            a
        }
    }
}

/// `after` is `before` struck by `spell`: damage taken (saturating at zero)
/// and the spell's statuses applied; nothing else changes.
pub open spec fn struck(before: Enemy, after: Enemy, spell: ResolvedView) -> bool {
    let d = damage_spec(before, spell);
    &&& after.hp == (if before.hp > d {
        (before.hp - d) as u16
    } else {
        0u16
    })
    &&& after.name == before.name
    &&& after.max_hp == before.max_hp
    &&& after.power == before.power
    &&& after.element == before.element
    &&& after.armor == before.armor
    &&& after.art == before.art
    &&& after.intent == before.intent
    &&& after.statuses.wf()
    &&& forall|st: Status| #[trigger]
        after.statuses.rounds(st) == applied_rounds(before.statuses.rounds(st), spell.statuses, st)
}

/// Applying a list of `(status, rounds)` in turn to a status with `r`
/// rounds never shortens it, leaves it at least as long as any entry for
/// it, and ends at `r` or at one of those entries' rounds.
pub proof fn lemma_applied_rounds(r: nat, list: Seq<(Status, u8)>, st: Status)
    ensures
        applied_rounds(r, list, st) >= r,
        forall|j: int| 0 <= j < list.len() && (#[trigger] list[j]).0 == st ==> applied_rounds(r, list, st) >= list[j].1,
        applied_rounds(r, list, st) == r || exists|j: int|
            0 <= j < list.len() && (#[trigger] list[j]).0 == st && list[j].1 == applied_rounds(r, list, st),
    decreases list.len(),
{
    if list.len() > 0 {
        let init = list.drop_last();
        lemma_applied_rounds(r, init, st);
        let a = applied_rounds(r, init, st);
        assert forall|j: int| 0 <= j < list.len() && (#[trigger] list[j]).0 == st implies applied_rounds(r, list, st) >= list[j].1 by {
            if j < list.len() - 1 {
                assert(init[j] == list[j]);
            }
        }
        if applied_rounds(r, list, st) != r {
            if applied_rounds(r, list, st) == a {
                let j = choose|j: int| 0 <= j < init.len() && (#[trigger] init[j]).0 == st && init[j].1 == a;
                assert(list[j] == init[j]);
            } else {
                assert(list[list.len() - 1] == list.last());
            }
        }
    }
}

/// A cast leaves every enemy it strikes holding each status of the spell
/// for at least the spell's rounds, keeps any longer rounds the enemy
/// already had, and gives a status no rounds beyond the longer of the two.
pub proof fn lemma_cast_applies_statuses(
    c0: Combat,
    c1: Combat,
    p0: Player,
    p1: Player,
    spell: ResolvedView,
    events: Seq<EventView>,
    i: int,
)
    requires
        cast_effect(c0, c1, p0, p1, spell, events),
        0 <= i < c0.enemies@.len(),
        cast_targets(c0.enemies@, c0.target, spell.targeting).contains(i as usize),
    ensures
        forall|j: int|
            0 <= j < spell.statuses.len() ==> c1.enemies@[i].statuses.rounds((#[trigger] spell.statuses[j]).0) >= spell.statuses[j].1,
        forall|st: Status| #[trigger] c1.enemies@[i].statuses.rounds(st) >= c0.enemies@[i].statuses.rounds(st),
        forall|st: Status|
            #[trigger] c1.enemies@[i].statuses.rounds(st) == c0.enemies@[i].statuses.rounds(st) || exists|j: int|
                0 <= j < spell.statuses.len() && (#[trigger] spell.statuses[j]).0 == st && spell.statuses[j].1
                    == c1.enemies@[i].statuses.rounds(st),
{
    let e0 = c0.enemies@[i];
    let e1 = c1.enemies@[i];
    assert(struck(e0, e1, spell));
    assert forall|j: int| 0 <= j < spell.statuses.len() implies e1.statuses.rounds((#[trigger] spell.statuses[j]).0) >= spell.statuses[j].1 by {
        let st = spell.statuses[j].0;
        lemma_applied_rounds(e0.statuses.rounds(st), spell.statuses, st);
    }
    assert forall|st: Status| #[trigger] e1.statuses.rounds(st) >= e0.statuses.rounds(st) by {
        lemma_applied_rounds(e0.statuses.rounds(st), spell.statuses, st);
    }
    assert forall|st: Status|
        #[trigger] e1.statuses.rounds(st) == e0.statuses.rounds(st) || exists|j: int|
            0 <= j < spell.statuses.len() && (#[trigger] spell.statuses[j]).0 == st && spell.statuses[j].1 == e1.statuses.rounds(st) by {
        lemma_applied_rounds(e0.statuses.rounds(st), spell.statuses, st);
    }
}

/// The events of striking one enemy named `name`, which is left with `hp`.
pub open spec fn strike_events(name: Seq<char>, amount: u16, statuses: Seq<(Status, u8)>, hp: u16) -> Seq<EventView> {
    seq![EventView::Damaged { target: name, amount }] + statuses.map_values(
        |x: (Status, u8)| EventView::StatusApplied { target: name, status: x.0 },
    ) + if hp == 0 {
        seq![EventView::Died { name }]
    } else {
        Seq::empty()
    }
}

/// The enemies a cast hits: every living one, or the (valid) target.
pub open spec fn cast_targets(es: Seq<Enemy>, t: usize, targeting: Targeting) -> Seq<usize> {
    match targeting {
        Targeting::All => living(es),
        Targeting::Single => {
            let v = valid_target(es, t);
            if v < es.len() && es[v as int].hp > 0 {
                seq![v]
            } else {
                Seq::empty()
            }
        },
    }
}

/// The events of striking the targets `ts` (in order), given the enemies
/// before and after.
pub open spec fn targets_events(ts: Seq<usize>, before: Seq<Enemy>, after: Seq<Enemy>, spell: ResolvedView) -> Seq<EventView>
    decreases ts.len(),
{
    if ts.len() == 0 {
        Seq::empty()
    } else {
        let i = ts.last() as int;
        targets_events(ts.drop_last(), before, after, spell) + strike_events(
            before[i].name@,
            damage_spec(before[i], spell),
            spell.statuses,
            after[i].hp,
        )
    }
}

#[derive(Debug, Clone)]
pub struct Combat {
    pub enemies: Vec<Enemy>,
    /// The in-progress incantation: indices into the player's spell slots.
    pub build: Vec<SlotIndex>,
    pub target: usize,
    pub phase: Phase,
    pub log: Vec<Event>,
    pub round: u32,
}

impl Combat {
    /// Every enemy's statuses are well formed.
    pub open spec fn wf(self) -> bool {
        forall|i: int| 0 <= i < self.enemies@.len() ==> (#[trigger] self.enemies@[i]).statuses.wf()
    }

    /// The spells of the in-progress build.
    pub open spec fn build_of(self, player: Player) -> Seq<Spell> {
        build_seq(self.build@, player.spells@)
    }

    /// The build's total cost fits the sum the resolver keeps.
    pub open spec fn cost_bounded(self, player: Player) -> bool {
        cost_of(self.build_of(player)) <= u16::MAX
    }

    pub fn new(enemies: Vec<Enemy>) -> (r: Self)
        ensures
            r.enemies@ == enemies@,
            r.build@.len() == 0,
            r.target == 0,
            r.phase == Phase::PlayerTurn,
            r.log@.len() == 0,
            r.round == 1,
    {
        Combat { enemies, build: Vec::new(), target: 0, phase: Phase::PlayerTurn, log: Vec::new(), round: 1 }
    }

    pub fn is_over(&self) -> (r: bool)
        ensures
            r == (self.phase is Won || self.phase is Lost),
    {
        match self.phase {
            Phase::Won | Phase::Lost => true,
            Phase::PlayerTurn => false,
        }
    }

    /// The components currently in the build, as actual spells.
    pub fn build_spells(&self, player: &Player) -> (r: Vec<Spell>)
        ensures
            r@.len() == self.build_of(*player).len(),
            forall|k: int| 0 <= k < r@.len() ==> (#[trigger] r@[k])@ == self.build_of(*player)[k]@,
    {
        let ghost b = self.build@;
        let n = self.build.len();
        let mut out: Vec<Spell> = Vec::new();
        let mut i: usize = 0;
        while i < n
            invariant
                n == b.len(),
                b == self.build@,
                i <= n,
                out@.len() == build_seq(b.take(i as int), player.spells@).len(),
                forall|k: int| 0 <= k < out@.len() ==> (#[trigger] out@[k])@ == build_seq(b.take(i as int), player.spells@)[k]@,
            decreases n - i,
        {
            proof {
                assert(b.take(i + 1).drop_last() =~= b.take(i as int));
            }
            if let Some(spell) = player.spell(self.build[i]) {
                out.push(spell.copy());
            }
            i = i + 1;
        }
        proof {
            assert(b.take(n as int) =~= b);
        }
        out
    }

    /// What the current build would cast as. Recomputed on every keystroke --
    /// cheap because resolution is pure.
    pub fn preview(&self, player: &Player, rules: &Rules) -> (r: Option<ResolvedSpell>)
        requires
            self.cost_bounded(*player),
        ensures
            r is None <==> self.build_of(*player).len() == 0,
            r matches Some(x) ==> x@ == resolution(self.build_of(*player), *rules),
    {
        let spells = self.build_spells(player);
        proof {
            lemma_resolution_congruent(spells@, self.build_of(*player), *rules);
        }
        resolve_incantation(spells.as_slice(), rules)
    }

    /// Mana already committed to the in-progress build, saturating at `u8::MAX`.
    pub fn committed_mana(&self, player: &Player) -> (r: u8)
        requires
            self.cost_bounded(*player),
        ensures
            r == crate::game::combat::incantation::cap(cost_of(self.build_of(*player)), 255),
    {
        let spells = self.build_spells(player);
        proof {
            crate::game::combat::incantation::lemma_tally_congruent(spells@, self.build_of(*player));
        }
        crate::game::combat::incantation::total_cost(spells.as_slice())
    }

    /// The indices of the living enemies, in order.
    pub fn living_enemies(&self) -> (r: Vec<usize>)
        ensures
            r@ == living(self.enemies@),
    {
        let ghost es = self.enemies@;
        let n = self.enemies.len();
        let mut out: Vec<usize> = Vec::new();
        let mut i: usize = 0;
        while i < n
            invariant
                n == es.len(),
                es == self.enemies@,
                i <= n,
                out@ == living(es.take(i as int)),
            decreases n - i,
        {
            proof {
                assert(es.take(i + 1).drop_last() =~= es.take(i as int));
            }
            if self.enemies[i].is_alive() {
                out.push(i);
            }
            i = i + 1;
        }
        proof {
            assert(es.take(n as int) =~= es);
        }
        out
    }
}

/// Strike one enemy with a spell: damage, then statuses.
fn strike(enemy: &mut Enemy, spell: &ResolvedSpell) -> (events: Vec<Event>)
    requires
        old(enemy).statuses.wf(),
    ensures
        struck(*old(enemy), *final(enemy), spell@),
        event_views(events@) == strike_events(
            old(enemy).name@,
            damage_spec(*old(enemy), spell@),
            spell.statuses@,
            final(enemy).hp,
        ),
{
    let amount = damage_against(enemy, spell);
    enemy.hp = enemy.hp.saturating_sub(amount);
    let mut events: Vec<Event> = Vec::new();
    events.push(Event::Damaged { target: enemy.name.clone(), amount });
    proof {
        assert(spell.statuses@.take(0) =~= Seq::<(Status, u8)>::empty());
        assert(event_views(events@) =~= seq![EventView::Damaged { target: old(enemy).name@, amount }]
            + spell.statuses@.take(0).map_values(
            |x: (Status, u8)| EventView::StatusApplied { target: old(enemy).name@, status: x.0 },
        ));
    }
    let ghost start = *old(enemy);
    let ghost head = event_views(events@);
    let n = spell.statuses.len();
    let mut k: usize = 0;
    while k < n
        invariant
            n == spell.statuses@.len(),
            k <= n,
            enemy.statuses.wf(),
            enemy.name == start.name,
            enemy.hp == (if start.hp > amount {
                (start.hp - amount) as u16
            } else {
                0u16
            }),
            enemy.max_hp == start.max_hp,
            enemy.power == start.power,
            enemy.element == start.element,
            enemy.armor == start.armor,
            enemy.art == start.art,
            enemy.intent == start.intent,
            forall|st: Status| #[trigger]
                enemy.statuses.rounds(st) == applied_rounds(
                    start.statuses.rounds(st),
                    spell.statuses@.take(k as int),
                    st,
                ),
            event_views(events@) == seq![EventView::Damaged { target: start.name@, amount }]
                + spell.statuses@.take(k as int).map_values(
                |x: (Status, u8)| EventView::StatusApplied { target: start.name@, status: x.0 },
            ),
        decreases n - k,
    {
        let (status, rounds) = spell.statuses[k];
        let ghost before_rounds = enemy.statuses;
        let ghost before_events = events@;
        enemy.statuses.apply(status, rounds);
        let ev = Event::StatusApplied { target: enemy.name.clone(), status };
        events.push(ev);
        proof {
            let t = spell.statuses@.take(k + 1);
            assert(event_views(events@) =~= event_views(before_events).push(ev@));
            assert(t.map_values(
                |x: (Status, u8)| EventView::StatusApplied { target: start.name@, status: x.0 },
            ) =~= spell.statuses@.take(k as int).map_values(
                |x: (Status, u8)| EventView::StatusApplied { target: start.name@, status: x.0 },
            ).push(EventView::StatusApplied { target: start.name@, status }));
            assert(t.drop_last() =~= spell.statuses@.take(k as int));
            assert forall|st: Status| #[trigger]
                enemy.statuses.rounds(st) == applied_rounds(start.statuses.rounds(st), t, st) by {
                assert(before_rounds.rounds(st) == applied_rounds(
                    start.statuses.rounds(st),
                    spell.statuses@.take(k as int),
                    st,
                ));
            }
            assert(event_views(events@) =~= seq![EventView::Damaged { target: start.name@, amount }]
                + t.map_values(
                |x: (Status, u8)| EventView::StatusApplied { target: start.name@, status: x.0 },
            ));
        }
        k = k + 1;
    }
    proof {
        assert(spell.statuses@.take(n as int) =~= spell.statuses@);
    }
    let ghost mid = events@;
    if !enemy.is_alive() {
        let ev = Event::Died { name: enemy.name.clone() };
        events.push(ev);
        proof {
            assert(event_views(events@) =~= event_views(mid).push(ev@));
        }
    }
    proof {
        assert(event_views(events@) =~= strike_events(
            start.name@,
            amount,
            spell.statuses@,
            enemy.hp,
        ));
    }
    events
}

impl Combat {
    /// Move the cursor to the next living enemy, wrapping. Dead enemies are
    /// never targetable.
    fn step_target(&mut self, forward: bool)
        requires
            old(self).enemies@.len() <= usize::MAX,
        ensures
            *final(self) == (Combat {
                target: stepped_target(old(self).enemies@, old(self).target, forward),
                ..*old(self)
            }),
    {
        let alive = self.living_enemies();
        proof {
            lemma_living(self.enemies@);
        }
        let n = alive.len();
        if n == 0 {
            return;
        }
        let mut pos: usize = 0;
        let mut k: usize = 0;
        let mut found = false;
        while k < n && !found
            invariant
                n == alive@.len(),
                alive@ == living(self.enemies@),
                k <= n,
                !found ==> pos == 0 && forall|j: int| 0 <= j < k ==> alive@[j] != self.target,
                found ==> pos < n && alive@[pos as int] == self.target,
            decreases n - k,
        {
            if alive[k] == self.target {
                pos = k;
                found = true;
            }
            k = k + 1;
        }
        proof {
            let l = alive@;
            if found {
                assert(l.contains(self.target));
                let c = choose|c: int| 0 <= c < l.len() && l[c] == self.target;
                if c < pos {
                    assert(l[c] < l[pos as int]);
                } else if c > pos {
                    assert(l[pos as int] < l[c]);
                }
            } else {
                assert(!l.contains(self.target));
            }
            assert(pos == living_pos(l, self.target));
        }
        let next = if forward {
            (pos + 1) % n
        } else if pos == 0 {
            n - 1
        } else {
            pos - 1
        };
        proof {
            if !forward {
                if pos == 0 {
                    assert((pos + n - 1) % (n as int) == n - 1) by (nonlinear_arith)
                        requires
                            pos == 0,
                            n > 0,
                    ;
                } else {
                    assert((pos + n - 1) % (n as int) == pos - 1) by (nonlinear_arith)
                        requires
                            0 < pos < n,
                    ;
                }
            }
        }
        self.target = alive[next];
    }

    /// Point the cursor at the first living enemy if it points at a dead or
    /// missing one.
    fn ensure_valid_target(&mut self)
        requires
            old(self).enemies@.len() <= usize::MAX,
        ensures
            *final(self) == (Combat {
                target: valid_target(old(self).enemies@, old(self).target),
                ..*old(self)
            }),
    {
        if self.target >= self.enemies.len() || !self.enemies[self.target].is_alive() {
            let alive = self.living_enemies();
            if alive.len() > 0 {
                self.target = alive[0];
            }
        }
    }

    /// The fight is won once every enemy is dead.
    fn check_outcome(&mut self) -> (events: Vec<Event>)
        ensures
            all_dead(old(self).enemies@) ==> *final(self) == (Combat { phase: Phase::Won, ..*old(self) })
                && event_views(events@) == seq![EventView::Won],
            !all_dead(old(self).enemies@) ==> *final(self) == *old(self) && events@.len() == 0,
    {
        let n = self.enemies.len();
        let mut i: usize = 0;
        while i < n
            invariant
                n == self.enemies@.len(),
                i <= n,
                forall|j: int| 0 <= j < i ==> (#[trigger] self.enemies@[j]).hp == 0,
            decreases n - i,
        {
            if self.enemies[i].is_alive() {
                return Vec::new();
            }
            i = i + 1;
        }
        self.phase = Phase::Won;
        let mut events = Vec::new();
        events.push(Event::Won);
        proof {
            assert(event_views(events@) =~= seq![EventView::Won]);
        }
        events
    }

    /// Called by the shell after any command, since the player can die from
    /// status damage as well as from being hit.
    pub fn note_player_death(&mut self) -> (events: Vec<Event>)
        ensures
            old(self).phase == Phase::PlayerTurn ==> final(self).phase == Phase::Lost
                && final(self).log@ == old(self).log@.push(Event::Lost)
                && final(self).enemies == old(self).enemies && final(self).build == old(self).build
                && final(self).target == old(self).target && final(self).round == old(self).round
                && event_views(events@) == seq![EventView::Lost],
            old(self).phase != Phase::PlayerTurn ==> *final(self) == *old(self) && events@.len() == 0,
    {
        if self.phase == Phase::PlayerTurn {
            self.phase = Phase::Lost;
            self.log.push(Event::Lost);
            let mut events = Vec::new();
            events.push(Event::Lost);
            proof {
                assert(event_views(events@) =~= seq![EventView::Lost]);
            }
            return events;
        }
        Vec::new()
    }

    /// Add a component to the build, unless the slot is empty or the build
    /// would cost more mana than the player has.
    fn add_component(&mut self, player: &Player, slot: SlotIndex) -> (events: Vec<Event>)
        requires
            slot < player.spells@.len() ==> old(self).cost_bounded(*player),
        ensures
            slot >= player.spells@.len() ==> *final(self) == *old(self) && event_views(events@) == seq![EventView::Refused("no spell in that slot"@)],
            slot < player.spells@.len() && crate::game::combat::incantation::cap((crate::game::combat::incantation::cap(cost_of(old(self).build_of(*player)), 255) + player.spells@[slot as int].mana_cost) as nat, 255) > player.mana
                ==> *final(self) == *old(self) && event_views(events@) == seq![EventView::Refused("not enough mana"@)],
            slot < player.spells@.len() && crate::game::combat::incantation::cap((crate::game::combat::incantation::cap(cost_of(old(self).build_of(*player)), 255) + player.spells@[slot as int].mana_cost) as nat, 255) <= player.mana
                ==> *final(self) == (Combat { build: final(self).build, ..*old(self) }) && final(self).build@ == old(self).build@.push(slot) && events@.len() == 0,
    {
        let spell = match player.spell(slot) {
            Some(s) => s,
            None => {
                let mut events = Vec::new();
                events.push(Event::Refused("no spell in that slot"));
                proof {
                    assert(event_views(events@) =~= seq![EventView::Refused("no spell in that slot"@)]);
                }
                return events;
            },
        };
        let committed = self.committed_mana(player);
        if committed.saturating_add(spell.mana_cost) > player.mana {
            let mut events = Vec::new();
            events.push(Event::Refused("not enough mana"));
            proof {
                assert(event_views(events@) =~= seq![EventView::Refused("not enough mana"@)]);
            }
            return events;
        }
        let ghost old_build = self.build@;
        self.build.push(slot);
        proof {
            let b = old_build.push(slot);
            assert(b.drop_last() =~= old_build);
            let s0 = build_seq(old_build, player.spells@);
            let s1 = build_seq(b, player.spells@);
            assert(s1 == s0.push(player.spells@[slot as int]));
            assert(s1.drop_last() =~= s0);
            assert(cost_of(s1) == cost_of(s0) + player.spells@[slot as int].mana_cost);
        }
        Vec::new()
    }

    /// Cast the build at the target(s).
    fn cast(&mut self, player: &mut Player, rules: &Rules) -> (events: Vec<Event>)
        requires
            old(self).wf(),
            old(self).cost_bounded(*old(player)),
        ensures
            old(self).build_of(*old(player)).len() == 0 ==> *final(self) == *old(self) && *final(player)
                == *old(player) && event_views(events@) == seq![EventView::Refused("nothing to cast"@)],
            old(self).build_of(*old(player)).len() > 0 && resolution(old(self).build_of(*old(player)), *rules).mana_cost > old(player).mana
                ==> *final(self) == *old(self) && *final(player) == *old(player) && event_views(events@)
                == seq![EventView::Refused("not enough mana"@)],
            old(self).build_of(*old(player)).len() > 0 && resolution(old(self).build_of(*old(player)), *rules).mana_cost <= old(player).mana
                ==> cast_effect(*old(self), *final(self), *old(player), *final(player), resolution(old(self).build_of(*old(player)), *rules), event_views(events@)),
    {
        let spell = match self.preview(player, rules) {
            Some(s) => s,
            None => {
                let mut events = Vec::new();
                events.push(Event::Refused("nothing to cast"));
                proof {
                    assert(event_views(events@) =~= seq![EventView::Refused("nothing to cast"@)]);
                }
                return events;
            },
        };
        if spell.mana_cost > player.mana {
            let mut events = Vec::new();
            events.push(Event::Refused("not enough mana"));
            proof {
                assert(event_views(events@) =~= seq![EventView::Refused("not enough mana"@)]);
            }
            return events;
        }
        player.mana = player.mana - spell.mana_cost;
        self.build.clear();
        let mut events: Vec<Event> = Vec::new();
        events.push(Event::Cast { name: spell.name.clone() });
        let ghost head = events@;
        let mut rest = self.strike_all(&spell);
        let ghost rest_v = rest@;
        events.append(&mut rest);
        proof {
            assert(events@ =~= head + rest_v);
            assert(event_views(events@).drop_first() =~= event_views(rest_v));
        }
        events
    }

    /// Strike the spell's targets, then revalidate the cursor and check
    /// whether the fight is won.
    fn strike_all(&mut self, spell: &ResolvedSpell) -> (events: Vec<Event>)
        requires
            old(self).wf(),
        ensures
            strike_effect(*old(self), *final(self), spell@, event_views(events@)),
            final(self).build == old(self).build,
    {
        let ne = self.enemies.len();
        proof {
            lemma_living(self.enemies@);
        }
        let targets: Vec<usize> = match spell.targeting {
            Targeting::All => self.living_enemies(),
            Targeting::Single => {
                self.ensure_valid_target();
                let mut ts = Vec::new();
                if self.target < self.enemies.len() && self.enemies[self.target].is_alive() {
                    ts.push(self.target);
                }
                proof {
                    assert(ts@ =~= cast_targets(old(self).enemies@, old(self).target, spell.targeting));
                }
                ts
            },
        };
        let ghost es0 = self.enemies@;
        let ghost ts = targets@;
        proof {
            lemma_living(es0);
        }
        let mut events = strike_targets(&mut self.enemies, &targets, spell);
        let ghost es1 = self.enemies@;
        proof {
            lemma_living(es1);
        }
        let ghost evs_mid = events@;
        self.ensure_valid_target();
        let mut outcome = self.check_outcome();
        let ghost out_v = outcome@;
        events.append(&mut outcome);
        proof {
            assert(events@ =~= evs_mid + out_v);
            assert(event_views(events@) =~= event_views(evs_mid) + event_views(out_v));
            assert forall|j: int| 0 <= j < self.enemies@.len() implies (#[trigger] self.enemies@[j]).statuses.wf() by {
                if ts.contains(j as usize) {
                    assert(struck(es0[j], es1[j], spell@));
                } else {
                    assert(es1[j] == es0[j]);
                }
            }
            if !all_dead(es1) {
                assert(event_views(out_v) =~= Seq::<EventView>::empty());
            }
        }
        events
    }
}

/// Strike each of `targets` in turn.
fn strike_targets(enemies: &mut Vec<Enemy>, targets: &Vec<usize>, spell: &ResolvedSpell) -> (events: Vec<Event>)
    requires
        forall|a: int, b: int| 0 <= a < b < targets@.len() ==> #[trigger] targets@[a] < #[trigger] targets@[b],
        forall|a: int| 0 <= a < targets@.len() ==> (#[trigger] targets@[a]) < old(enemies)@.len(),
        forall|j: int| 0 <= j < old(enemies)@.len() ==> (#[trigger] old(enemies)@[j]).statuses.wf(),
    ensures
        final(enemies)@.len() == old(enemies)@.len(),
        forall|j: int|
            0 <= j < old(enemies)@.len() ==> if targets@.contains(j as usize) {
                struck(old(enemies)@[j], #[trigger] final(enemies)@[j], spell@)
            } else {
                final(enemies)@[j] == old(enemies)@[j]
            },
        event_views(events@) == targets_events(targets@, old(enemies)@, final(enemies)@, spell@),
{
    let ghost es0 = enemies@;
    let ghost ts = targets@;
    let ne = enemies.len();
    let mut events: Vec<Event> = Vec::new();
    proof {
        assert(event_views(events@) =~= Seq::<EventView>::empty());
        assert(ts.take(0) =~= Seq::<usize>::empty());
    }
    let n = targets.len();
    let mut k: usize = 0;
    while k < n
        invariant
            n == ts.len(),
            ts == targets@,
            k <= n,
            enemies@.len() == es0.len(),
            es0.len() == ne,
            forall|j: int| 0 <= j < es0.len() ==> (#[trigger] es0[j]).statuses.wf(),
            forall|a: int, b: int| 0 <= a < b < ts.len() ==> #[trigger] ts[a] < #[trigger] ts[b],
            forall|a: int| 0 <= a < ts.len() ==> (#[trigger] ts[a]) < es0.len(),
            forall|j: int|
                0 <= j < es0.len() ==> if ts.take(k as int).contains(j as usize) {
                    struck(es0[j], #[trigger] enemies@[j], spell@)
                } else {
                    enemies@[j] == es0[j]
                },
            event_views(events@) == targets_events(ts.take(k as int), es0, enemies@, spell@),
            es0 == old(enemies)@,
        decreases n - k,
    {
        let i = targets[k];
        let ghost cur = enemies@;
        proof {
            assert(!ts.take(k as int).contains(i)) by {
                if ts.take(k as int).contains(i) {
                    let c = choose|c: int| 0 <= c < k && ts.take(k as int)[c] == i;
                    assert(ts[c] < ts[k as int]);
                }
            }
            assert(cur[i as int] == es0[i as int]);
        }
        let mut ev = strike(&mut enemies[i], spell);
        let ghost evs = events@;
        let ghost evn = ev@;
        events.append(&mut ev);
        proof {
            let now = enemies@;
            let tk = ts.take(k + 1);
            assert(tk.drop_last() =~= ts.take(k as int));
            assert(tk.len() == k + 1);
            assert(tk[k as int] == i);
            assert(tk.last() == i);
            lemma_targets_events_frame(ts.take(k as int), es0, cur, now, spell@);
            assert(event_views(events@) =~= event_views(evs) + event_views(evn)) by {
                assert(events@ =~= evs + evn);
            }
            assert forall|j: int| 0 <= j < es0.len() implies if tk.contains(j as usize) {
                struck(es0[j], #[trigger] now[j], spell@)
            } else {
                now[j] == es0[j]
            } by {
                if j == i {
                    assert(tk.contains(j as usize));
                } else {
                    assert(now[j] == cur[j]);
                    if ts.take(k as int).contains(j as usize) {
                        let c = choose|c: int| 0 <= c < ts.take(k as int).len() && ts.take(k as int)[c] == j as usize;
                        assert(tk[c] == j as usize);
                    }
                    if tk.contains(j as usize) {
                        let c = choose|c: int| 0 <= c < tk.len() && tk[c] == j as usize;
                        assert(c != k);
                        assert(ts.take(k as int)[c] == j as usize);
                    }
                }
            }
        }
        k = k + 1;
    }
    proof {
        assert(ts.take(n as int) =~= ts);
    }
    events
}

/// What striking with `spell` did: each target struck, the cursor
/// revalidated, the fight won if everyone is dead.
pub open spec fn strike_effect(c0: Combat, c1: Combat, spell: ResolvedView, events: Seq<EventView>) -> bool {
    let es0 = c0.enemies@;
    let es1 = c1.enemies@;
    let ts = cast_targets(es0, c0.target, spell.targeting);
    let t1 = if spell.targeting == Targeting::Single {
        valid_target(es0, c0.target)
    } else {
        c0.target
    };
    &&& es1.len() == es0.len()
    &&& forall|j: int|
        0 <= j < es0.len() ==> if ts.contains(j as usize) {
            struck(es0[j], #[trigger] es1[j], spell)
        } else {
            es1[j] == es0[j]
        }
    &&& c1.target == valid_target(es1, t1)
    &&& c1.phase == (if all_dead(es1) {
        Phase::Won
    } else {
        c0.phase
    })
    &&& c1.log == c0.log
    &&& c1.round == c0.round
    &&& c1.wf()
    &&& events == targets_events(ts, es0, es1, spell) + if all_dead(es1) {
        seq![EventView::Won]
    } else {
        Seq::empty()
    }
}

/// What casting `spell` did: mana spent, build cleared, `Cast` announced,
/// then the strike (see `strike_effect`).
pub open spec fn cast_effect(c0: Combat, c1: Combat, p0: Player, p1: Player, spell: ResolvedView, events: Seq<EventView>) -> bool {
    &&& p1 == (Player { mana: (p0.mana - spell.mana_cost) as u8, ..p0 })
    &&& c1.build@.len() == 0
    &&& events.len() >= 1
    &&& events[0] == EventView::Cast { name: spell.name }
    &&& strike_effect(c0, c1, spell, events.drop_first())
}

/// The events of striking earlier targets do not change when later targets
/// are struck.
pub proof fn lemma_targets_events_frame(ts: Seq<usize>, before: Seq<Enemy>, a1: Seq<Enemy>, a2: Seq<Enemy>, spell: ResolvedView)
    requires
        forall|k: int| 0 <= k < ts.len() ==> (#[trigger] ts[k]) < a1.len() && ts[k] < a2.len() && a1[ts[k] as int].hp == a2[ts[k] as int].hp,
    ensures
        targets_events(ts, before, a1, spell) == targets_events(ts, before, a2, spell),
    decreases ts.len(),
{
    if ts.len() > 0 {
        lemma_targets_events_frame(ts.drop_last(), before, a1, a2, spell);
        assert(ts[ts.len() - 1] == ts.last());
    }
}

/// `a` less `b`, stopping at zero.
pub open spec fn sat_sub(a: u16, b: nat) -> u16 {
    if a > b {
        (a - b) as u16
    } else {
        0
    }
}

/// Player health after the enemies before `k` have had their turn, and
/// whether the turn was cut short because the player died.
pub open spec fn attack_state(es: Seq<Enemy>, hp0: u16, k: nat) -> (u16, bool)
    decreases k,
{
    if k == 0 {
        (hp0, false)
    } else {
        let (hp, stopped) = attack_state(es, hp0, (k - 1) as nat);
        let e = es[k - 1];
        if stopped || e.hp == 0 || e.statuses.active(Status::Frozen) {
            (hp, stopped)
        } else {
            let h = sat_sub(hp, enemy_damage_spec(e) as nat);
            (h, h == 0)
        }
    }
}

/// Enemy `i` gets its turn: the player is still standing and it is alive.
pub open spec fn gets_turn(es: Seq<Enemy>, hp0: u16, i: int) -> bool {
    !attack_state(es, hp0, i as nat).1 && es[i].hp > 0
}

/// The attacks enemies before `k` make, in order.
pub open spec fn attack_events(es: Seq<Enemy>, hp0: u16, k: nat) -> Seq<EventView>
    decreases k,
{
    if k == 0 {
        Seq::empty()
    } else {
        let prev = attack_events(es, hp0, (k - 1) as nat);
        let e = es[k - 1];
        if gets_turn(es, hp0, k - 1) && !e.statuses.active(Status::Frozen) {
            prev.push(EventView::EnemyAttacked { name: e.name@, amount: enemy_damage_spec(e) })
        } else {
            prev
        }
    }
}

/// `b` is `a` with nothing but its statuses changed.
pub open spec fn same_but_statuses(a: Enemy, b: Enemy) -> bool {
    &&& b.name == a.name
    &&& b.hp == a.hp
    &&& b.max_hp == a.max_hp
    &&& b.power == a.power
    &&& b.element == a.element
    &&& b.armor == a.armor
    &&& b.art == a.art
    &&& b.intent == a.intent
}

/// `b` is `a` thawed: Frozen removed, all else kept.
pub open spec fn thawed(a: Enemy, b: Enemy) -> bool {
    &&& same_but_statuses(a, b)
    &&& b.statuses.wf()
    &&& forall|st: Status| #[trigger]
        b.statuses.rounds(st) == if st == Status::Frozen {
            0
        } else {
            a.statuses.rounds(st)
        }
}

/// `b` is `a` after the end of the round: status damage taken, every status
/// one round shorter.
pub open spec fn ticked_enemy(a: Enemy, b: Enemy) -> bool {
    &&& b.hp == sat_sub(a.hp, a.statuses.total_tick())
    &&& b.name == a.name
    &&& b.max_hp == a.max_hp
    &&& b.power == a.power
    &&& b.element == a.element
    &&& b.armor == a.armor
    &&& b.art == a.art
    &&& b.intent == a.intent
    &&& b.statuses.wf()
    &&& forall|st: Status| #[trigger]
        b.statuses.rounds(st) == if a.statuses.rounds(st) > 1 {
            (a.statuses.rounds(st) - 1) as nat
        } else {
            0
        }
}

/// What the enemies' turns did: each enemy that got its turn attacked the
/// player or, if Frozen, thawed instead.
pub open spec fn attack_effect(es0: Seq<Enemy>, es1: Seq<Enemy>, hp0: u16, hp1: u16, events: Seq<EventView>) -> bool {
    &&& es1.len() == es0.len()
    &&& forall|i: int|
        0 <= i < es0.len() ==> if gets_turn(es0, hp0, i) && es0[i].statuses.active(Status::Frozen) {
            thawed(es0[i], #[trigger] es1[i])
        } else {
            es1[i] == es0[i]
        }
    &&& hp1 == attack_state(es0, hp0, es0.len()).0
    &&& events == attack_events(es0, hp0, es0.len())
}

/// The end-of-round events of enemies before `k`.
pub open spec fn tick_events(es1: Seq<Enemy>, es2: Seq<Enemy>, k: nat) -> Seq<EventView>
    decreases k,
{
    if k == 0 {
        Seq::empty()
    } else {
        let prev = tick_events(es1, es2, (k - 1) as nat);
        let e = es1[k - 1];
        if e.hp > 0 && e.statuses.total_tick() > 0 {
            prev.push(EventView::StatusTicked { target: e.name@, amount: e.statuses.total_tick() as u16 })
                + if es2[k - 1].hp == 0 {
                seq![EventView::Died { name: e.name@ }]
            } else {
                Seq::empty()
            }
        } else {
            prev
        }
    }
}

/// What the end of the round did to the enemies: every living one took its
/// status damage and had its statuses shortened.
pub open spec fn tick_effect(es1: Seq<Enemy>, es2: Seq<Enemy>, events: Seq<EventView>) -> bool {
    &&& es2.len() == es1.len()
    &&& forall|i: int|
        0 <= i < es1.len() ==> if es1[i].hp > 0 {
            ticked_enemy(es1[i], #[trigger] es2[i])
        } else {
            es2[i] == es1[i]
        }
    &&& events == tick_events(es1, es2, es1.len())
}

/// Every living enemy announces its next attack.
pub open spec fn intent_effect(es2: Seq<Enemy>, es3: Seq<Enemy>) -> bool {
    &&& es3.len() == es2.len()
    &&& forall|i: int|
        0 <= i < es2.len() ==> #[trigger] es3[i] == if es2[i].hp > 0 {
            Enemy { intent: Intent::Attack(enemy_damage_spec(es2[i])), ..es2[i] }
        } else {
            es2[i]
        }
}

/// Enemies' turns, in order. A Frozen enemy thaws instead of attacking. The
/// turn stops once the player is dead.
fn enemies_attack(enemies: &mut Vec<Enemy>, player: &mut Player) -> (events: Vec<Event>)
    requires
        forall|i: int| 0 <= i < old(enemies)@.len() ==> (#[trigger] old(enemies)@[i]).statuses.wf(),
    ensures
        attack_effect(old(enemies)@, final(enemies)@, old(player).hp, final(player).hp, event_views(events@)),
        *final(player) == (Player { hp: final(player).hp, ..*old(player) }),
        forall|i: int| 0 <= i < final(enemies)@.len() ==> (#[trigger] final(enemies)@[i]).statuses.wf(),
{
    let ghost es0 = enemies@;
    let ghost hp0 = player.hp;
    let n = enemies.len();
    let mut events: Vec<Event> = Vec::new();
    let mut stopped = false;
    let mut i: usize = 0;
    proof {
        assert(event_views(events@) =~= Seq::<EventView>::empty());
    }
    while i < n
        invariant
            n == es0.len(),
            es0 == old(enemies)@,
            hp0 == old(player).hp,
            enemies@.len() == n,
            i <= n,
            (player.hp, stopped) == attack_state(es0, hp0, i as nat),
            *player == (Player { hp: player.hp, ..*old(player) }),
            forall|j: int| 0 <= j < n ==> (#[trigger] es0[j]).statuses.wf(),
            forall|j: int|
                0 <= j < n ==> if j < i && gets_turn(es0, hp0, j) && es0[j].statuses.active(Status::Frozen) {
                    thawed(es0[j], #[trigger] enemies@[j])
                } else {
                    enemies@[j] == es0[j]
                },
            event_views(events@) == attack_events(es0, hp0, i as nat),
        decreases n - i,
    {
        let ghost before = enemies@;
        let ghost evs = events@;
        if !stopped && enemies[i].is_alive() {
            if enemies[i].statuses.has(Status::Frozen) {
                enemies[i].statuses.remove(Status::Frozen);
            } else {
                let amount = enemy_damage(&enemies[i]);
                player.take_damage(amount);
                let ev = Event::EnemyAttacked { name: enemies[i].name.clone(), amount };
                events.push(ev);
                proof {
                    assert(event_views(events@) =~= event_views(evs).push(ev@));
                }
                if !player.is_alive() {
                    stopped = true;
                }
            }
        }
        proof {
            assert forall|j: int|
                0 <= j < n implies if j < i + 1 && gets_turn(es0, hp0, j) && es0[j].statuses.active(Status::Frozen) {
                    thawed(es0[j], #[trigger] enemies@[j])
                } else {
                    enemies@[j] == es0[j]
                } by {
                if j != i {
                    assert(enemies@[j] == before[j]);
                }
            }
        }
        i = i + 1;
    }
    events
}

/// The end of the round for the enemies: status damage, then every status
/// one round shorter. Dead enemies are left alone.
fn enemies_tick(enemies: &mut Vec<Enemy>) -> (events: Vec<Event>)
    requires
        forall|i: int| 0 <= i < old(enemies)@.len() ==> (#[trigger] old(enemies)@[i]).statuses.wf(),
    ensures
        tick_effect(old(enemies)@, final(enemies)@, event_views(events@)),
        forall|i: int| 0 <= i < final(enemies)@.len() ==> (#[trigger] final(enemies)@[i]).statuses.wf(),
{
    let ghost es1 = enemies@;
    let n = enemies.len();
    let mut events: Vec<Event> = Vec::new();
    let mut i: usize = 0;
    proof {
        assert(event_views(events@) =~= Seq::<EventView>::empty());
    }
    while i < n
        invariant
            n == es1.len(),
            es1 == old(enemies)@,
            enemies@.len() == n,
            i <= n,
            forall|j: int| 0 <= j < n ==> (#[trigger] es1[j]).statuses.wf(),
            forall|j: int|
                0 <= j < n ==> if j < i && es1[j].hp > 0 {
                    ticked_enemy(es1[j], #[trigger] enemies@[j])
                } else {
                    enemies@[j] == es1[j]
                },
            event_views(events@) == tick_events(es1, enemies@, i as nat),
        decreases n - i,
    {
        let ghost before = enemies@;
        let ghost evs = events@;
        if enemies[i].is_alive() {
            let tick = enemies[i].statuses.tick_damage();
            if tick > 0 {
                enemies[i].hp = enemies[i].hp.saturating_sub(tick);
                let ev = Event::StatusTicked { target: enemies[i].name.clone(), amount: tick };
                events.push(ev);
                proof {
                    assert(event_views(events@) =~= event_views(evs).push(ev@));
                }
                if !enemies[i].is_alive() {
                    let ghost evs2 = events@;
                    let ev2 = Event::Died { name: enemies[i].name.clone() };
                    events.push(ev2);
                    proof {
                        assert(event_views(events@) =~= event_views(evs2).push(ev2@));
                    }
                }
            }
            enemies[i].statuses.tick();
        }
        proof {
            lemma_tick_events_frame(es1, before, enemies@, i as nat);
            assert forall|j: int|
                0 <= j < n implies if j < i + 1 && es1[j].hp > 0 {
                    ticked_enemy(es1[j], #[trigger] enemies@[j])
                } else {
                    enemies@[j] == es1[j]
                } by {
                if j != i {
                    assert(enemies@[j] == before[j]);
                }
            }
            let e = es1[i as int];
            if e.hp > 0 && e.statuses.total_tick() > 0 {
                if enemies@[i as int].hp == 0 {
                    assert(event_views(events@) =~= tick_events(es1, before, i as nat).push(
                        EventView::StatusTicked { target: e.name@, amount: e.statuses.total_tick() as u16 },
                    ) + seq![EventView::Died { name: e.name@ }]);
                } else {
                    assert(event_views(events@) =~= tick_events(es1, before, i as nat).push(
                        EventView::StatusTicked { target: e.name@, amount: e.statuses.total_tick() as u16 },
                    ) + Seq::<EventView>::empty());
                }
            }
        }
        i = i + 1;
    }
    events
}

/// Tick events before `k` only look at enemies before `k`.
pub proof fn lemma_tick_events_frame(es1: Seq<Enemy>, a: Seq<Enemy>, b: Seq<Enemy>, k: nat)
    requires
        k <= es1.len(),
        k <= a.len(),
        k <= b.len(),
        forall|j: int| 0 <= j < k ==> (#[trigger] a[j]).hp == b[j].hp,
    ensures
        tick_events(es1, a, k) == tick_events(es1, b, k),
    decreases k,
{
    if k > 0 {
        lemma_tick_events_frame(es1, a, b, (k - 1) as nat);
        assert(a[k - 1].hp == b[k - 1].hp);
    }
}

/// Every living enemy announces its next attack.
fn renew_intents(enemies: &mut Vec<Enemy>)
    ensures
        intent_effect(old(enemies)@, final(enemies)@),
{
    let ghost es2 = enemies@;
    let n = enemies.len();
    let mut i: usize = 0;
    while i < n
        invariant
            n == es2.len(),
            es2 == old(enemies)@,
            enemies@.len() == n,
            i <= n,
            forall|j: int|
                0 <= j < n ==> #[trigger] enemies@[j] == if j < i && es2[j].hp > 0 {
                    Enemy { intent: Intent::Attack(enemy_damage_spec(es2[j])), ..es2[j] }
                } else {
                    es2[j]
                },
        decreases n - i,
    {
        let ghost before = enemies@;
        if enemies[i].is_alive() {
            let d = enemy_damage(&enemies[i]);
            enemies[i].intent = Intent::Attack(d);
        }
        proof {
            assert forall|j: int|
                0 <= j < n implies #[trigger] enemies@[j] == if j < i + 1 && es2[j].hp > 0 {
                    Enemy { intent: Intent::Attack(enemy_damage_spec(es2[j])), ..es2[j] }
                } else {
                    es2[j]
                } by {
                if j != i {
                    assert(enemies@[j] == before[j]);
                }
            }
        }
        i = i + 1;
    }
}

/// What ending the turn did: enemies took their turns, then (if the player
/// still stands) statuses ticked on both sides; mana refilled, the round
/// advanced, intents renewed, the cursor revalidated, the fight won if
/// everyone is dead.
pub open spec fn turn_effect(c0: Combat, c1: Combat, p0: Player, p1: Player, events: Seq<EventView>) -> bool {
    let es0 = c0.enemies@;
    let es3 = c1.enemies@;
    let h1 = attack_state(es0, p0.hp, es0.len()).0;
    &&& exists|es1: Seq<Enemy>, es2: Seq<Enemy>|
        #![trigger attack_effect(es0, es1, p0.hp, h1, attack_events(es0, p0.hp, es0.len())), intent_effect(es2, es3)]
        {
            &&& attack_effect(es0, es1, p0.hp, h1, attack_events(es0, p0.hp, es0.len()))
            &&& if h1 > 0 {
                tick_effect(es1, es2, tick_events(es1, es2, es1.len()))
            } else {
                es2 == es1
            }
            &&& intent_effect(es2, es3)
            &&& events == seq![EventView::TurnEnded] + attack_events(es0, p0.hp, es0.len()) + (if h1 > 0 {
                tick_events(es1, es2, es1.len())
            } else {
                Seq::empty()
            }) + if all_dead(es3) {
                seq![EventView::Won]
            } else {
                Seq::empty()
            }
        }
    &&& p1.hp == (if h1 > 0 {
        sat_sub(h1, p0.statuses.total_tick())
    } else {
        h1
    })
    &&& p1.mana == p0.max_mana
    &&& p1.max_hp == p0.max_hp
    &&& p1.max_mana == p0.max_mana
    &&& p1.spells == p0.spells
    &&& p1.gold == p0.gold
    &&& p1.statuses.wf()
    &&& (h1 == 0 ==> p1.statuses == p0.statuses)
    &&& (h1 > 0 ==> forall|st: Status| #[trigger]
        p1.statuses.rounds(st) == if p0.statuses.rounds(st) > 1 {
            (p0.statuses.rounds(st) - 1) as nat
        } else {
            0
        })
    &&& c1.build@.len() == 0
    &&& c1.round == c0.round + 1
    &&& c1.target == valid_target(es3, c0.target)
    &&& c1.phase == (if all_dead(es3) {
        Phase::Won
    } else {
        c0.phase
    })
    &&& c1.log == c0.log
    &&& c1.wf()
}

/// What a command did, with the log left aside.
pub open spec fn command_effect(c0: Combat, c1: Combat, p0: Player, p1: Player, rules: Rules, cmd: Command, events: Seq<EventView>) -> bool {
    match cmd {
        Command::AddComponent(slot) => {
            let committed = crate::game::combat::incantation::cap(cost_of(c0.build_of(p0)), 255);
            &&& p1 == p0
            &&& if slot >= p0.spells@.len() {
                c1 == c0 && events == seq![EventView::Refused("no spell in that slot"@)]
            } else if crate::game::combat::incantation::cap((committed + p0.spells@[slot as int].mana_cost) as nat, 255) > p0.mana {
                c1 == c0 && events == seq![EventView::Refused("not enough mana"@)]
            } else {
                c1 == (Combat { build: c1.build, ..c0 }) && c1.build@ == c0.build@.push(slot) && events.len() == 0
            }
        },
        Command::UndoComponent => {
            &&& p1 == p0
            &&& c1 == (Combat { build: c1.build, ..c0 })
            &&& c1.build@ == (if c0.build@.len() > 0 {
                c0.build@.drop_last()
            } else {
                c0.build@
            })
            &&& events.len() == 0
        },
        Command::ClearBuild => {
            &&& p1 == p0
            &&& c1 == (Combat { build: c1.build, ..c0 })
            &&& c1.build@.len() == 0
            &&& events.len() == 0
        },
        Command::TargetNext => {
            &&& p1 == p0
            &&& c1 == (Combat { target: stepped_target(c0.enemies@, c0.target, true), ..c0 })
            &&& events.len() == 0
        },
        Command::TargetPrev => {
            &&& p1 == p0
            &&& c1 == (Combat { target: stepped_target(c0.enemies@, c0.target, false), ..c0 })
            &&& events.len() == 0
        },
        Command::Cast => {
            let b = c0.build_of(p0);
            if b.len() == 0 {
                c1 == c0 && p1 == p0 && events == seq![EventView::Refused("nothing to cast"@)]
            } else if resolution(b, rules).mana_cost > p0.mana {
                c1 == c0 && p1 == p0 && events == seq![EventView::Refused("not enough mana"@)]
            } else {
                cast_effect(c0, c1, p0, p1, resolution(b, rules), events)
            }
        },
        Command::EndTurn => turn_effect(c0, c1, p0, p1, events),
    }
}

/// Ending a turn in stages gives `turn_effect`: the stages are its
/// witnesses.
proof fn lemma_turn_effect(
    c0: Combat,
    c1: Combat,
    p0: Player,
    p1: Player,
    es1: Seq<Enemy>,
    es2: Seq<Enemy>,
    att: Seq<EventView>,
    tk: Seq<EventView>,
    out: Seq<EventView>,
    events: Seq<EventView>,
)
    requires
        attack_effect(c0.enemies@, es1, p0.hp, attack_state(c0.enemies@, p0.hp, c0.enemies@.len()).0, att),
        if attack_state(c0.enemies@, p0.hp, c0.enemies@.len()).0 > 0 {
            tick_effect(es1, es2, tk)
        } else {
            es2 == es1 && tk == Seq::<EventView>::empty()
        },
        intent_effect(es2, c1.enemies@),
        out == (if all_dead(c1.enemies@) {
            seq![EventView::Won]
        } else {
            Seq::<EventView>::empty()
        }),
        events == seq![EventView::TurnEnded] + att + tk + out,
        p1.hp == (if attack_state(c0.enemies@, p0.hp, c0.enemies@.len()).0 > 0 {
            sat_sub(attack_state(c0.enemies@, p0.hp, c0.enemies@.len()).0, p0.statuses.total_tick())
        } else {
            attack_state(c0.enemies@, p0.hp, c0.enemies@.len()).0
        }),
        p1.mana == p0.max_mana,
        p1.max_hp == p0.max_hp,
        p1.max_mana == p0.max_mana,
        p1.spells == p0.spells,
        p1.gold == p0.gold,
        p1.statuses.wf(),
        attack_state(c0.enemies@, p0.hp, c0.enemies@.len()).0 == 0 ==> p1.statuses == p0.statuses,
        attack_state(c0.enemies@, p0.hp, c0.enemies@.len()).0 > 0 ==> forall|st: Status| #[trigger]
            p1.statuses.rounds(st) == if p0.statuses.rounds(st) > 1 {
                (p0.statuses.rounds(st) - 1) as nat
            } else {
                0
            },
        c1.build@.len() == 0,
        c1.round == c0.round + 1,
        c1.target == valid_target(c1.enemies@, c0.target),
        c1.phase == (if all_dead(c1.enemies@) {
            Phase::Won
        } else {
            c0.phase
        }),
        c1.log == c0.log,
        c1.wf(),
    ensures
        turn_effect(c0, c1, p0, p1, events),
{
    let es0 = c0.enemies@;
    let es3 = c1.enemies@;
    let h1 = attack_state(es0, p0.hp, es0.len()).0;
    assert(attack_effect(es0, es1, p0.hp, h1, attack_events(es0, p0.hp, es0.len())));
    assert(intent_effect(es2, es3));
    if h1 > 0 {
        assert(tk == tick_events(es1, es2, es1.len()));
    }
}

/// The player's own statuses at the end of the round: their damage, then
/// each one round shorter.
fn player_tick(player: &mut Player)
    requires
        old(player).wf(),
    ensures
        final(player).wf(),
        *final(player) == (Player {
            hp: sat_sub(old(player).hp, old(player).statuses.total_tick()),
            statuses: final(player).statuses,
            ..*old(player)
        }),
        forall|st: Status| #[trigger]
            final(player).statuses.rounds(st) == if old(player).statuses.rounds(st) > 1 {
                (old(player).statuses.rounds(st) - 1) as nat
            } else {
                0
            },
{
    let tick = player.statuses.tick_damage();
    if tick > 0 {
        player.take_damage(tick);
    }
    player.statuses.tick();
}

/// What `Combat::apply` did: the log grew by the events the command
/// produced; a finished fight ignored the command; otherwise the command
/// took effect as `command_effect` says.
/// What `cmd` needs to run without overflowing: a fight that is over
/// ignores every command; otherwise the build's cost must fit the sum kept of
/// it where it is summed (adding from a real slot, casting), and the round
/// counter must have room where a turn ends.
pub open spec fn command_fits(c: Combat, p: Player, cmd: Command) -> bool {
    (c.phase is Won || c.phase is Lost) || match cmd {
        Command::AddComponent(slot) => slot < p.spells@.len() ==> c.cost_bounded(p),
        Command::Cast => c.cost_bounded(p),
        Command::EndTurn => c.round < u32::MAX,
        _ => true,
    }
}

pub open spec fn applied(c0: Combat, c1: Combat, p0: Player, p1: Player, rules: Rules, cmd: Command) -> bool {
    let n0 = c0.log@.len() as int;
    let events = c1.log@.subrange(n0, c1.log@.len() as int);
    &&& c1.wf()
    &&& p1.wf()
    &&& c1.log@.len() >= n0
    &&& c1.log@.subrange(0, n0) == c0.log@
    &&& ((c0.phase is Won || c0.phase is Lost) ==> c1 == c0 && p1 == p0)
    &&& (c0.phase is PlayerTurn ==> command_effect(c0, Combat { log: c0.log, ..c1 }, p0, p1, rules, cmd, event_views(events)))
}

impl Combat {
    /// The close of a round: intents renewed, the cursor revalidated, the
    /// fight won if everyone is dead.
    fn close_round(&mut self) -> (events: Vec<Event>)
        ensures
            intent_effect(old(self).enemies@, final(self).enemies@),
            final(self).target == valid_target(final(self).enemies@, old(self).target),
            final(self).phase == (if all_dead(final(self).enemies@) {
                Phase::Won
            } else {
                old(self).phase
            }),
            final(self).build == old(self).build,
            final(self).log == old(self).log,
            final(self).round == old(self).round,
            event_views(events@) == if all_dead(final(self).enemies@) {
                seq![EventView::Won]
            } else {
                Seq::<EventView>::empty()
            },
    {
        renew_intents(&mut self.enemies);
        let ne = self.enemies.len();
        proof {
            lemma_living(self.enemies@);
        }
        self.ensure_valid_target();
        let outcome = self.check_outcome();
        proof {
            if !all_dead(self.enemies@) {
                assert(event_views(outcome@) =~= Seq::<EventView>::empty());
            }
        }
        outcome
    }

    fn end_turn(&mut self, player: &mut Player) -> (events: Vec<Event>)
        requires
            old(self).wf(),
            old(player).wf(),
            old(self).round < u32::MAX,
        ensures
            turn_effect(*old(self), *final(self), *old(player), *final(player), event_views(events@)),
    {
        let ghost c_start = *self;
        let mut events: Vec<Event> = Vec::new();
        events.push(Event::TurnEnded);
        self.build.clear();
        let ghost es0 = self.enemies@;
        let ghost p0 = *player;
        let mut att = enemies_attack(&mut self.enemies, player);
        let ghost es1 = self.enemies@;
        let ghost att_v = att@;
        let ghost h1 = player.hp;
        let ghost ev1 = events@;
        events.append(&mut att);
        let ghost ev2 = events@;
        let ghost mut tk_v: Seq<Event> = Seq::empty();
        if player.is_alive() {
            let mut tk = enemies_tick(&mut self.enemies);
            proof {
                tk_v = tk@;
            }
            events.append(&mut tk);
            player_tick(player);
        }
        let ghost es2 = self.enemies@;
        let ghost ev3 = events@;
        player.refill_mana();
        self.round = self.round + 1;
        let mut outcome = self.close_round();
        let ghost out_v = outcome@;
        events.append(&mut outcome);
        proof {
            let es3 = self.enemies@;
            assert(ev2 =~= ev1 + att_v);
            assert(ev3 =~= ev2 + tk_v);
            assert(events@ =~= ev3 + out_v);
            assert(event_views(events@) =~= seq![EventView::TurnEnded] + event_views(att_v)
                + event_views(tk_v) + event_views(out_v));
            if h1 == 0 {
                assert(event_views(tk_v) =~= Seq::<EventView>::empty());
            }
            assert forall|i: int| 0 <= i < es3.len() implies (#[trigger] es3[i]).statuses.wf() by {
                assert(es2[i].statuses.wf());
            }
            lemma_turn_effect(
                c_start,
                *self,
                p0,
                *player,
                es1,
                es2,
                event_views(att_v),
                event_views(tk_v),
                event_views(out_v),
                event_views(events@),
            );
        }
        events
    }

    /// Apply a command. Returns the events it produced; the same events are
    /// appended to the log. A finished fight ignores every command.
    pub fn apply(&mut self, player: &mut Player, rules: &Rules, cmd: Command) -> (events: Vec<Event>)
        requires
            old(self).wf(),
            old(player).wf(),
            command_fits(*old(self), *old(player), cmd),
        ensures
            final(self).wf(),
            final(player).wf(),
            final(self).log@ == old(self).log@ + events@,
            (old(self).phase is Won || old(self).phase is Lost) ==> *final(self) == *old(self) && *final(player) == *old(player) && events@.len() == 0,
            old(self).phase is PlayerTurn ==> command_effect(
                *old(self),
                Combat { log: old(self).log, ..*final(self) },
                *old(player),
                *final(player),
                *rules,
                cmd,
                event_views(events@),
            ),
            applied(*old(self), *final(self), *old(player), *final(player), *rules, cmd),
    {
        if self.is_over() {
            proof {
                assert(self.log@.subrange(0, self.log@.len() as int) =~= self.log@);
            }
            return Vec::new();
        }
        let ghost c0 = *self;
        let ghost p0 = *player;
        let events = match cmd {
            Command::AddComponent(slot) => self.add_component(player, slot),
            Command::UndoComponent => {
                self.build.pop();
                Vec::new()
            },
            Command::ClearBuild => {
                self.build.clear();
                Vec::new()
            },
            Command::TargetNext => {
                let ne = self.enemies.len();
                self.step_target(true);
                Vec::new()
            },
            Command::TargetPrev => {
                let ne = self.enemies.len();
                self.step_target(false);
                Vec::new()
            },
            Command::Cast => {
                proof {
                    assert(self.cost_bounded(*player));
                }
                self.cast(player, rules)
            },
            Command::EndTurn => self.end_turn(player),
        };
        let ghost c1 = *self;
        let ghost p1 = *player;
        let mut i: usize = 0;
        let n = events.len();
        let ghost log0 = self.log@;
        while i < n
            invariant
                n == events@.len(),
                i <= n,
                self.log@ == log0 + events@.take(i as int),
                *self == (Combat { log: self.log, ..c1 }),
            decreases n - i,
        {
            self.log.push(events[i].copy());
            proof {
                assert(self.log@ =~= log0 + events@.take(i + 1));
            }
            i = i + 1;
        }
        proof {
            assert(events@.take(n as int) =~= events@);
            assert(log0 == c0.log@);
            assert(self.log@.subrange(log0.len() as int, self.log@.len() as int) =~= events@);
            assert(self.log@.subrange(0, log0.len() as int) =~= log0);
            match cmd {
                Command::AddComponent(_) => {},
                Command::UndoComponent => {},
                Command::ClearBuild => {},
                Command::TargetNext => {},
                Command::TargetPrev => {},
                Command::Cast => {
                    if c0.build_of(p0).len() > 0 && resolution(c0.build_of(p0), *rules).mana_cost <= p0.mana {
                        assert(c1.wf());
                    }
                },
                Command::EndTurn => {},
            }
        }
        events
    }
}

} // verus!
