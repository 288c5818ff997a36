//! The shell's state machine: owns all state and routes actions. Drawing and
//! the terminal loop sit outside the verified crate; every decision is here.

use vstd::prelude::*;

use crate::action::Action;
use crate::game::chance::{choose_one, random_seed};
use crate::game::combat::{Combat, Command, Event, Phase, applied, command_fits};
use crate::game::content::Content;
use crate::game::encounter::{drawn, generate as generate_encounter};
use crate::game::entity::Player;
use crate::game::event::{MapEvent, apply_outcome, outcome_effect, outcome_fits, same_event};
use crate::game::map::{NodeId, NodeKind, budget_spec};
use crate::game::run::{Run, fresh_run};

verus! {

/// A fixed set of screens, so an enum beats dynamic dispatch: the compiler
/// points at every match that needs updating when a variant is added.
#[derive(Debug, Clone, Copy, PartialEq, Eq, Structural)]
pub enum Screen {
    MapScreen,
    Combat,
    Event,
    GameOver,
}

/// Which zone of the fight screen the arrow keys are currently driving.
/// Ordered top to bottom, matching the layout.
#[derive(Debug, Clone, Copy, PartialEq, Eq, Structural)]
pub enum Focus {
    Enemies,
    Actions,
    Spells,
}

impl Focus {
    /// One zone up, stopping at the top.
    pub open spec fn up_spec(self) -> Focus {
        match self {
            Focus::Spells => Focus::Actions,
            Focus::Actions | Focus::Enemies => Focus::Enemies,
        }
    }

    /// One zone down, stopping at the bottom.
    pub open spec fn down_spec(self) -> Focus {
        match self {
            Focus::Enemies => Focus::Actions,
            Focus::Actions | Focus::Spells => Focus::Spells,
        }
    }

    fn up(self) -> (r: Self)
        ensures
            r == self.up_spec(),
    {
        match self {
            Focus::Spells => Focus::Actions,
            Focus::Actions | Focus::Enemies => Focus::Enemies,
        }
    }

    fn down(self) -> (r: Self)
        ensures
            r == self.down_spec(),
    {
        match self {
            Focus::Enemies => Focus::Actions,
            Focus::Actions | Focus::Spells => Focus::Spells,
        }
    }
}

/// The two things the action zone can do.
pub const ACTION_CAST: usize = 0;

pub const ACTION_END_TURN: usize = 1;

pub const ACTION_COUNT: usize = 2;

#[derive(Debug, Clone, Copy, PartialEq, Eq, Structural)]
pub enum RunOutcome {
    Won,
    Lost,
}

#[derive(Debug, Clone)]
pub struct ActiveEvent {
    pub event: MapEvent,
    /// Set once a choice has been made; the player dismisses it to continue.
    pub result: Option<String>,
}

/// View state. The simulation never sees any of this.
#[derive(Debug, Clone)]
pub struct UiState {
    pub map_cursor: usize,
    pub choice_cursor: usize,
    /// How many combat log entries are on screen. Grows over time so a turn
    /// reads as a sequence of beats rather than one instant dump.
    pub revealed: usize,
    pub focus: Focus,
    pub spell_cursor: usize,
    pub action_cursor: usize,
}

/// The view state a run starts with: every cursor at its start, focus on
/// the spell row, where most turns begin.
pub open spec fn initial_ui() -> UiState {
    UiState { map_cursor: 0, choice_cursor: 0, revealed: 0, focus: Focus::Spells, spell_cursor: 0, action_cursor: ACTION_CAST }
}

impl Default for UiState {
    fn default() -> (r: Self)
        ensures
            r == initial_ui(),
    {
        UiState {
            map_cursor: 0,
            choice_cursor: 0,
            revealed: 0,
            // Start on the spell row: that is where most turns begin.
            focus: Focus::Spells,
            spell_cursor: 0,
            action_cursor: ACTION_CAST,
        }
    }
}

pub struct App {
    pub content: Content,
    pub run: Run,
    pub screen: Screen,
    pub combat: Option<Combat>,
    pub event: Option<ActiveEvent>,
    pub outcome: Option<RunOutcome>,
    pub ui: UiState,
    pub should_quit: bool,
}

/// `a` is an app just started on `content`: a fresh run, on the map, with
/// nothing under way.
pub open spec fn started(a: App, content: Content) -> bool {
    &&& a.content == content
    &&& fresh_run(a.run, content, a.run.seed)
    &&& a.screen == Screen::MapScreen
    &&& a.combat is None
    &&& a.event is None
    &&& a.outcome is None
    &&& a.ui == initial_ui()
    &&& !a.should_quit
}

/// Back to the map once a node is done with: no fight, no event, cursors
/// reset.
pub open spec fn advanced(a0: App, a1: App) -> bool {
    a1 == App {
        combat: None,
        event: None,
        ui: UiState { map_cursor: 0, revealed: 0, ..a0.ui },
        screen: Screen::MapScreen,
        ..a0
    }
}

/// The run ended with `outcome`.
pub open spec fn finished(a0: App, a1: App, outcome: RunOutcome) -> bool {
    a1 == App { outcome: Some(outcome), screen: Screen::GameOver, ..a0 }
}

/// `c1` is `c0` with the player's death recorded, if the fight was still on.
pub open spec fn death_noted(c0: Combat, c1: Combat) -> bool {
    if c0.phase is PlayerTurn {
        &&& c1 == Combat { phase: Phase::Lost, log: c1.log, ..c0 }
        &&& c1.log@ == c0.log@.push(Event::Lost)
    } else {
        c1 == c0
    }
}

/// What follows a command that left the fight as `c1` and the player as
/// `p1`: a dead player loses the run; a won fight ends the run at the boss
/// and returns to the map elsewhere; otherwise the fight goes on.
pub open spec fn after_command(a0: App, a1: App, c1: Combat, p1: Player) -> bool {
    let a = App { combat: Some(c1), run: Run { player: p1, ..a0.run }, ..a0 };
    if p1.hp == 0 {
        exists|c2: Combat| #[trigger] death_noted(c1, c2) && finished(App { combat: Some(c2), ..a }, a1, RunOutcome::Lost)
    } else if c1.phase is Won {
        if a.run.complete_spec() {
            finished(a, a1, RunOutcome::Won)
        } else {
            advanced(a, a1)
        }
    } else {
        a1 == a
    }
}

/// What sending `cmd` to the fight did.
pub open spec fn commanded(a0: App, a1: App, cmd: Command) -> bool {
    match a0.combat {
        None => a1 == a0,
        Some(c0) => exists|c1: Combat, p1: Player|
            #[trigger] applied(c0, c1, a0.run.player, p1, a0.content.rules, cmd) && after_command(a0, a1, c1, p1),
    }
}

/// A fight fresh from the encounter pool against `budget`.
pub open spec fn fresh_fight(c: Combat, pool: Seq<crate::game::entity::EnemyKind>, budget: u8) -> bool {
    &&& (pool.len() == 0 ==> c.enemies@.len() == 0)
    &&& (pool.len() > 0 ==> exists|picks: Seq<int>| #[trigger] drawn(pool, budget, picks, c.enemies@))
    &&& c.wf()
    &&& c.build@.len() == 0
    &&& c.target == 0
    &&& c.phase == Phase::PlayerTurn
    &&& c.log@.len() == 0
    &&& c.round == 1
}

/// What entering the node under the map cursor did. Whichever node it is,
/// the run moves there; a fight or the boss starts a fight; an event node
/// opens one of the authored events (or, with none authored, counts as
/// cleared); a shop node, which this shell has no screen for, counts as
/// cleared.
pub open spec fn entered_node(a0: App, a1: App) -> bool {
    let avail = a0.run.available_spec();
    if a0.ui.map_cursor >= avail.len() {
        a1 == a0
    } else {
        let id = avail[a0.ui.map_cursor as int];
        let moved = App { run: a1.run, ..a0 };
        &&& a1.run == Run { position: Some(id), visited: a1.run.visited, rng: a1.run.rng, ..a0.run }
        &&& a1.run.visited@ == a0.run.visited@.push(id)
        &&& match a0.run.map.nodes@[id as int].kind {
            NodeKind::Fight | NodeKind::Boss => {
                &&& a1 == App {
                    combat: a1.combat,
                    ui: UiState { revealed: 0, focus: Focus::Spells, spell_cursor: 0, action_cursor: ACTION_CAST, ..a0.ui },
                    screen: Screen::Combat,
                    ..moved
                }
                &&& a1.combat matches Some(c) && fresh_fight(
                    c,
                    a0.content.enemies@,
                    budget_spec(a0.run.map.nodes@[id as int].row as int) as u8,
                )
            },
            NodeKind::Event => if a0.content.events@.len() == 0 {
                advanced(moved, a1)
            } else {
                &&& a1 == App { event: a1.event, ui: UiState { choice_cursor: 0, ..a0.ui }, screen: Screen::Event, ..moved }
                &&& a1.event matches Some(ae) && ae.result is None && exists|k: int|
                    0 <= k < a0.content.events@.len() && #[trigger] same_event(ae.event, a0.content.events@[k])
            },
            NodeKind::Shop => advanced(moved, a1),
        }
    }
}

/// How many entries a wrapping cursor over `len` things cycles through:
/// at least one, so an empty list still has a place to stand.
pub open spec fn wrap_count(len: int) -> int {
    if len > 0 {
        len
    } else {
        1
    }
}

/// One step back round a cycle of `count`.
pub open spec fn step_back(c: usize, count: int) -> usize {
    ((c + count - 1) % count) as usize
}

/// One step forward round a cycle of `count`.
pub open spec fn step_on(c: usize, count: int) -> usize {
    ((c + 1) % count) as usize
}

/// What an action did on the map screen.
pub open spec fn map_effect(a0: App, a1: App, action: Action) -> bool {
    let count = wrap_count(a0.run.available_spec().len() as int);
    match action {
        Action::NavLeft | Action::NavUp => a1 == App { ui: UiState { map_cursor: step_back(a0.ui.map_cursor, count), ..a0.ui }, ..a0 },
        Action::NavRight | Action::NavDown => a1 == App { ui: UiState { map_cursor: step_on(a0.ui.map_cursor, count), ..a0.ui }, ..a0 },
        Action::Confirm => entered_node(a0, a1),
        _ => a1 == a0,
    }
}

/// Whether a result is on screen waiting to be dismissed.
pub open spec fn awaiting(a: App) -> bool {
    a.event matches Some(e) && e.result is Some
}

/// The choices of the open event (none without one).
pub open spec fn choice_count(a: App) -> int {
    match a.event {
        Some(ae) => wrap_count(ae.event.choices@.len() as int),
        None => 1,
    }
}

/// What choosing the option under the cursor did: with an open event that
/// has no result yet and a choice under the cursor, that choice's outcome was
/// applied to the player and its description became the result.
pub open spec fn chose(a0: App, a1: App) -> bool {
    match a0.event {
        Some(ae) => if ae.result is None && a0.ui.choice_cursor < ae.event.choices@.len() {
            let outcome = ae.event.choices@[a0.ui.choice_cursor as int].outcome;
            &&& a1 == App {
                run: Run { player: a1.run.player, rng: a1.run.rng, ..a0.run },
                event: Some(ActiveEvent { event: ae.event, result: a1.event->0.result }),
                ..a0
            }
            &&& a1.event matches Some(ae1) && ae1.result matches Some(text) && outcome_effect(
                a0.run.player,
                a1.run.player,
                outcome,
                a0.content.spells@,
                text@,
            )
        } else {
            a1 == a0
        },
        None => a1 == a0,
    }
}

/// What dismissing a result did: the event closes, then a dead player loses
/// the run and a living one returns to the map.
pub open spec fn dismissed(a0: App, a1: App) -> bool {
    let a = App { event: None, ..a0 };
    if a0.run.player.hp == 0 {
        finished(a, a1, RunOutcome::Lost)
    } else {
        advanced(a, a1)
    }
}

/// What an action did on the event screen.
pub open spec fn event_effect(a0: App, a1: App, action: Action) -> bool {
    if awaiting(a0) {
        if action == Action::Confirm {
            dismissed(a0, a1)
        } else {
            a1 == a0
        }
    } else {
        let count = choice_count(a0);
        match action {
            Action::NavUp | Action::NavLeft => a1 == App { ui: UiState { choice_cursor: step_back(a0.ui.choice_cursor, count), ..a0.ui }, ..a0 },
            Action::NavDown | Action::NavRight => a1 == App { ui: UiState { choice_cursor: step_on(a0.ui.choice_cursor, count), ..a0.ui }, ..a0 },
            Action::Confirm => chose(a0, a1),
            _ => a1 == a0,
        }
    }
}

/// The spell cursor moved one step round the player's spells, forwards or
/// back (left alone with no spells).
pub open spec fn spell_cursor_moved(a0: App, forward: bool) -> usize {
    let count = a0.run.player.spells@.len() as int;
    if count == 0 {
        a0.ui.spell_cursor
    } else if forward {
        (((a0.ui.spell_cursor as int) % count + 1) % count) as usize
    } else {
        (((a0.ui.spell_cursor as int) % count + count - 1) % count) as usize
    }
}

/// What an action did on the fight screen.
pub open spec fn combat_effect(a0: App, a1: App, action: Action) -> bool {
    let ui = a0.ui;
    match action {
        Action::NavUp => a1 == App { ui: UiState { focus: ui.focus.up_spec(), ..ui }, ..a0 },
        Action::NavDown => a1 == App { ui: UiState { focus: ui.focus.down_spec(), ..ui }, ..a0 },
        Action::NavLeft => match ui.focus {
            Focus::Enemies => commanded(a0, a1, Command::TargetPrev),
            Focus::Actions => a1 == App { ui: UiState { action_cursor: step_back(ui.action_cursor, ACTION_COUNT as int), ..ui }, ..a0 },
            Focus::Spells => a1 == App { ui: UiState { spell_cursor: spell_cursor_moved(a0, false), ..ui }, ..a0 },
        },
        Action::NavRight => match ui.focus {
            Focus::Enemies => commanded(a0, a1, Command::TargetNext),
            Focus::Actions => a1 == App { ui: UiState { action_cursor: step_on(ui.action_cursor, ACTION_COUNT as int), ..ui }, ..a0 },
            Focus::Spells => a1 == App { ui: UiState { spell_cursor: spell_cursor_moved(a0, true), ..ui }, ..a0 },
        },
        Action::Confirm => match ui.focus {
            Focus::Enemies => a1 == App { ui: UiState { focus: Focus::Spells, ..ui }, ..a0 },
            Focus::Actions => if ui.action_cursor == ACTION_CAST {
                commanded(a0, a1, Command::Cast)
            } else {
                commanded(a0, a1, Command::EndTurn)
            },
            Focus::Spells => commanded(a0, a1, Command::AddComponent(ui.spell_cursor)),
        },
        Action::Undo => commanded(a0, a1, Command::UndoComponent),
        Action::Clear => commanded(a0, a1, Command::ClearBuild),
        Action::EndTurn => commanded(a0, a1, Command::EndTurn),
        Action::AddComponent(slot) => {
            let count = a0.run.player.spells@.len() as int;
            let last = if count > 0 {
                count - 1
            } else {
                0
            };
            let cursor = (if slot < last {
                slot as int
            } else {
                last
            }) as usize;
            commanded(App { ui: UiState { spell_cursor: cursor, ..ui }, ..a0 }, a1, Command::AddComponent(slot))
        },
        _ => a1 == a0,
    }
}

/// Whether `action` on the fight screen sends a command to the fight.
pub open spec fn sends_command(a: App, action: Action) -> bool {
    match action {
        Action::NavLeft | Action::NavRight => a.ui.focus == Focus::Enemies,
        Action::Confirm => a.ui.focus != Focus::Enemies,
        Action::Undo | Action::Clear | Action::EndTurn | Action::AddComponent(_) => true,
        _ => false,
    }
}

/// The command `action` sends to the fight, where it sends one.
pub open spec fn command_sent(a: App, action: Action) -> Command {
    match action {
        Action::NavLeft => Command::TargetPrev,
        Action::NavRight => Command::TargetNext,
        Action::Confirm => if a.ui.focus == Focus::Spells {
            Command::AddComponent(a.ui.spell_cursor)
        } else if a.ui.action_cursor == ACTION_CAST {
            Command::Cast
        } else {
            Command::EndTurn
        },
        Action::Clear => Command::ClearBuild,
        Action::EndTurn => Command::EndTurn,
        Action::AddComponent(slot) => Command::AddComponent(slot),
        _ => Command::UndoComponent,
    }
}

/// The machine limits an action must not cross: cursor arithmetic that
/// would overflow, a fight whose build cost or round count has run out of
/// room, an event outcome that would overflow the player's numbers.
pub open spec fn fits(a: App, action: Action) -> bool {
    &&& (a.screen == Screen::MapScreen ==> match action {
        Action::NavLeft | Action::NavUp => a.ui.map_cursor + wrap_count(a.run.available_spec().len() as int) <= usize::MAX,
        Action::NavRight | Action::NavDown => a.ui.map_cursor + 1 <= usize::MAX,
        _ => true,
    })
    &&& (a.screen == Screen::Event && !awaiting(a) ==> match action {
        Action::NavUp | Action::NavLeft => a.ui.choice_cursor + choice_count(a) <= usize::MAX,
        Action::NavDown | Action::NavRight => a.ui.choice_cursor + 1 <= usize::MAX,
        Action::Confirm => a.event matches Some(ae) ==> (ae.result is None && a.ui.choice_cursor < ae.event.choices@.len()
            ==> outcome_fits(a.run.player, ae.event.choices@[a.ui.choice_cursor as int].outcome)),
        _ => true,
    })
    &&& (a.screen == Screen::Combat ==> match action {
        Action::NavLeft | Action::NavRight => match a.ui.focus {
            Focus::Actions => a.ui.action_cursor + (if action == Action::NavLeft {
                ACTION_COUNT
            } else {
                1
            }) <= usize::MAX,
            Focus::Spells => a.ui.spell_cursor < isize::MAX,
            Focus::Enemies => true,
        },
        _ => true,
    })
    &&& (a.screen == Screen::Combat && sends_command(a, action) ==> (a.combat matches Some(c) ==> command_fits(
        c,
        a.run.player,
        command_sent(a, action),
    )))
}

/// What `App::apply` did with `action`.
pub open spec fn applied_action(a0: App, a1: App, action: Action) -> bool {
    if action == Action::Quit {
        a1 == App { should_quit: true, ..a0 }
    } else if action == Action::Restart && a0.screen == Screen::GameOver {
        started(a1, a0.content)
    } else {
        match a0.screen {
            Screen::MapScreen => map_effect(a0, a1, action),
            Screen::Combat => combat_effect(a0, a1, action),
            Screen::Event => event_effect(a0, a1, action),
            Screen::GameOver => a1 == a0,
        }
    }
}

impl App {
    /// The run's map and player are well formed, the map is small enough
    /// that every row's encounter budget can be computed, and any fight is
    /// well formed.
    pub open spec fn wf(self) -> bool {
        &&& self.run.wf()
        &&& self.run.player.wf()
        &&& 2 * self.run.map.rows@.len() <= usize::MAX
        &&& (self.combat matches Some(c) ==> c.wf())
    }

    pub fn new(content: Content, seed: u64) -> (r: Self)
        ensures
            r.wf(),
            started(r, content),
            r.run.seed == seed,
    {
        let run = Run::new(&content, seed);
        App {
            content,
            run,
            screen: Screen::MapScreen,
            combat: None,
            event: None,
            outcome: None,
            ui: UiState::default(),
            should_quit: false,
        }
    }

    /// A new app on `content`, with a seed drawn at random.
    pub fn from_content(content: Content) -> (r: Self)
        ensures
            r.wf(),
            started(r, content),
    {
        App::new(content, random_seed())
    }

    /// True while a result is on screen waiting to be dismissed.
    pub fn awaiting_dismiss(&self) -> (r: bool)
        ensures
            r == awaiting(*self),
    {
        match &self.event {
            Some(e) => e.result.is_some(),
            None => false,
        }
    }

    /// The part of the fight's log revealed so far.
    pub fn visible_log(&self) -> (r: &[Event])
        ensures
            r@ == match self.combat {
                Some(c) => c.log@.take(
                    if self.ui.revealed < c.log@.len() {
                        self.ui.revealed as int
                    } else {
                        c.log@.len() as int
                    },
                ),
                None => Seq::<Event>::empty(),
            },
    {
        match &self.combat {
            Some(c) => {
                let n = if self.ui.revealed < c.log.len() {
                    self.ui.revealed
                } else {
                    c.log.len()
                };
                let r = vstd::slice::slice_subrange(c.log.as_slice(), 0, n);
                proof {
                    assert(r@ =~= c.log@.take(n as int));
                }
                r
            },
            None => {
                let r: &[Event] = &[];
                proof {
                    assert(r@ =~= Seq::<Event>::empty());
                }
                r
            },
        }
    }

    pub fn nodes_available(&self) -> (r: Vec<NodeId>)
        requires
            self.wf(),
        ensures
            r@ == self.run.available_spec(),
    {
        self.run.available()
    }

    /// Reveal pending log entries a beat at a time.
    pub fn tick(&mut self)
        ensures
            (old(self).combat matches Some(c) && old(self).ui.revealed < c.log@.len()) ==> *final(self) == (App {
                ui: UiState { revealed: (old(self).ui.revealed + 1) as usize, ..old(self).ui },
                ..*old(self)
            }),
            !(old(self).combat matches Some(c) && old(self).ui.revealed < c.log@.len()) ==> *final(self) == *old(self),
    {
        let grow = match &self.combat {
            Some(c) => self.ui.revealed < c.log.len(),
            None => false,
        };
        if grow {
            self.ui.revealed = self.ui.revealed + 1;
        }
    }

    pub fn apply(&mut self, action: Action)
        requires
            old(self).wf(),
            fits(*old(self), action),
        ensures
            final(self).wf(),
            applied_action(*old(self), *final(self), action),
    {
        match action {
            Action::Quit => {
                self.should_quit = true;
                return ;
            },
            Action::Restart => {
                if self.screen == Screen::GameOver {
                    self.restart();
                    return ;
                }
            },
            _ => {},
        }
        match self.screen {
            Screen::MapScreen => self.map_action(action),
            Screen::Combat => self.combat_action(action),
            Screen::Event => self.event_action(action),
            Screen::GameOver => {},
        }
    }

    /// Start over on the same content with a fresh seed.
    fn restart(&mut self)
        ensures
            final(self).wf(),
            started(*final(self), old(self).content),
    {
        let run = Run::new(&self.content, random_seed());
        self.run = run;
        self.screen = Screen::MapScreen;
        self.combat = None;
        self.event = None;
        self.outcome = None;
        self.ui = UiState::default();
        self.should_quit = false;
    }

    fn map_action(&mut self, action: Action)
        requires
            old(self).wf(),
            old(self).screen == Screen::MapScreen,
            fits(*old(self), action),
        ensures
            final(self).wf(),
            map_effect(*old(self), *final(self), action),
    {
        let avail = self.nodes_available().len();
        let count = if avail > 0 {
            avail
        } else {
            1
        };
        match action {
            Action::NavLeft | Action::NavUp => {
                self.ui.map_cursor = (self.ui.map_cursor + count - 1) % count;
            },
            Action::NavRight | Action::NavDown => {
                self.ui.map_cursor = (self.ui.map_cursor + 1) % count;
            },
            Action::Confirm => self.enter_selected_node(),
            _ => {},
        }
    }

    fn event_action(&mut self, action: Action)
        requires
            old(self).wf(),
            old(self).screen == Screen::Event,
            fits(*old(self), action),
        ensures
            final(self).wf(),
            event_effect(*old(self), *final(self), action),
    {
        if self.awaiting_dismiss() {
            if action == Action::Confirm {
                self.dismiss_result();
            }
            return ;
        }
        let count = match &self.event {
            Some(a) => if a.event.choices.len() > 0 {
                a.event.choices.len()
            } else {
                1
            },
            None => 1,
        };
        match action {
            Action::NavUp | Action::NavLeft => {
                self.ui.choice_cursor = (self.ui.choice_cursor + count - 1) % count;
            },
            Action::NavDown | Action::NavRight => {
                self.ui.choice_cursor = (self.ui.choice_cursor + 1) % count;
            },
            Action::Confirm => self.resolve_event_choice(),
            _ => {},
        }
    }

    fn combat_action(&mut self, action: Action)
        requires
            old(self).wf(),
            old(self).screen == Screen::Combat,
            fits(*old(self), action),
        ensures
            final(self).wf(),
            combat_effect(*old(self), *final(self), action),
    {
        match action {
            Action::NavUp => self.ui.focus = self.ui.focus.up(),
            Action::NavDown => self.ui.focus = self.ui.focus.down(),
            Action::NavLeft => match self.ui.focus {
                Focus::Enemies => self.combat_command(Command::TargetPrev),
                Focus::Actions => {
                    self.ui.action_cursor = (self.ui.action_cursor + ACTION_COUNT - 1) % ACTION_COUNT;
                },
                Focus::Spells => self.move_spell_cursor(false),
            },
            Action::NavRight => match self.ui.focus {
                Focus::Enemies => self.combat_command(Command::TargetNext),
                Focus::Actions => {
                    self.ui.action_cursor = (self.ui.action_cursor + 1) % ACTION_COUNT;
                },
                Focus::Spells => self.move_spell_cursor(true),
            },
            Action::Confirm => match self.ui.focus {
                // Picking a target drops focus back to the spells, which is
                // where the next thing you want to do almost always is.
                Focus::Enemies => self.ui.focus = Focus::Spells,
                Focus::Actions => {
                    if self.ui.action_cursor == ACTION_CAST {
                        self.combat_command(Command::Cast);
                    } else {
                        self.combat_command(Command::EndTurn);
                    }
                },
                Focus::Spells => {
                    let slot = self.ui.spell_cursor;
                    self.combat_command(Command::AddComponent(slot));
                },
            },
            Action::Undo => self.combat_command(Command::UndoComponent),
            Action::Clear => self.combat_command(Command::ClearBuild),
            Action::EndTurn => self.combat_command(Command::EndTurn),
            Action::AddComponent(slot) => {
                let count = self.spell_count();
                let last = if count > 0 {
                    count - 1
                } else {
                    0
                };
                self.ui.spell_cursor = if slot < last {
                    slot
                } else {
                    last
                };
                self.combat_command(Command::AddComponent(slot));
            },
            _ => {},
        }
    }

    fn spell_count(&self) -> (n: usize)
        ensures
            n == self.run.player.spells@.len(),
    {
        self.run.player.spells.len()
    }

    /// Move the spell cursor one step round the spells, forwards or back.
    fn move_spell_cursor(&mut self, forward: bool)
        requires
            old(self).ui.spell_cursor < isize::MAX,
        ensures
            *final(self) == (App { ui: UiState { spell_cursor: spell_cursor_moved(*old(self), forward), ..old(self).ui }, ..*old(self) }),
    {
        let count = self.spell_count();
        if count == 0 {
            return ;
        }
        let base = self.ui.spell_cursor % count;
        proof {
            assert((base + count - 1) % (count as int) == if base == 0 {
                count - 1
            } else {
                base - 1
            }) by (nonlinear_arith)
                requires
                    base < count,
                    count > 0,
            ;
            assert(base < count);
        }
        self.ui.spell_cursor = if forward {
            (base + 1) % count
        } else if base == 0 {
            count - 1
        } else {
            base - 1
        };
    }

    fn enter_selected_node(&mut self)
        requires
            old(self).wf(),
        ensures
            final(self).wf(),
            entered_node(*old(self), *final(self)),
    {
        let available = self.nodes_available();
        if self.ui.map_cursor >= available.len() {
            return ;
        }
        let id = available[self.ui.map_cursor];
        let ghost a0 = *self;
        proof {
            assert(self.run.available_spec().contains(id)) by {
                assert(self.run.available_spec()[self.ui.map_cursor as int] == id);
            }
            crate::game::run::lemma_climb(self.run);
        }
        self.run.enter(id);
        let kind = self.run.map.node(id).kind;
        match kind {
            NodeKind::Fight | NodeKind::Boss => {
                proof {
                    assert(self.run.depth_spec() == self.run.map.nodes@[id as int].row);
                    assert(self.run.map.nodes@[id as int].row < self.run.map.rows@.len()) by {
                        assert(crate::game::map::laid_out(self.run.map.nodes@, self.run.map.rows@));
                    }
                }
                let budget = self.run.encounter_budget();
                let enemies = generate_encounter(self.content.enemies.as_slice(), budget, &mut self.run.rng);
                let ghost es = enemies@;
                let combat = Combat::new(enemies);
                proof {
                    let row = a0.run.map.nodes@[id as int].row as int;
                    assert(budget == budget_spec(row) as u8);
                    if a0.content.enemies@.len() > 0 {
                        let picks = choose|picks: Seq<int>| #[trigger] drawn(self.content.enemies@, budget, picks, es);
                        assert(drawn(a0.content.enemies@, budget_spec(row) as u8, picks, combat.enemies@));
                    }
                    assert forall|i: int| 0 <= i < combat.enemies@.len() implies (#[trigger] combat.enemies@[i]).statuses.wf() by {
                        if self.content.enemies@.len() > 0 {
                            let picks = choose|picks: Seq<int>| #[trigger] drawn(self.content.enemies@, budget, picks, enemies@);
                            assert(enemies@[i].fresh_from(self.content.enemies@[picks[i]]));
                        }
                    }
                }
                self.combat = Some(combat);
                self.ui.revealed = 0;
                self.ui.focus = Focus::Spells;
                self.ui.spell_cursor = 0;
                self.ui.action_cursor = ACTION_CAST;
                self.screen = Screen::Combat;
                proof {
                    let a1 = *self;
                    let row = a0.run.map.nodes@[id as int].row as int;
                    assert(a1.run == Run { position: Some(id), visited: a1.run.visited, rng: a1.run.rng, ..a0.run });
                    assert(a1.run.visited@ == a0.run.visited@.push(id));
                    assert(a1 == App {
                        combat: a1.combat,
                        ui: UiState { revealed: 0, focus: Focus::Spells, spell_cursor: 0, action_cursor: ACTION_CAST, ..a0.ui },
                        screen: Screen::Combat,
                        ..App { run: a1.run, ..a0 }
                    });
                    assert(fresh_fight(a1.combat->0, a0.content.enemies@, budget_spec(row) as u8));
                }
            },
            NodeKind::Event => {
                let n = self.content.events.len();
                let mut indices: Vec<usize> = Vec::new();
                let mut i: usize = 0;
                while i < n
                    invariant
                        n == self.content.events@.len(),
                        i <= n,
                        indices@.len() == i,
                        forall|k: int| 0 <= k < i ==> #[trigger] indices@[k] == k,
                    decreases n - i,
                {
                    indices.push(i);
                    i = i + 1;
                }
                match choose_one(&mut self.run.rng, &indices) {
                    Some(k) => {
                        proof {
                            let c = choose|c: int| 0 <= c < indices@.len() && indices@[c] == k;
                            assert(indices@[c] == c);
                        }
                        let event = self.content.events[k].copy();
                        self.event = Some(ActiveEvent { event, result: None });
                        self.ui.choice_cursor = 0;
                        self.screen = Screen::Event;
                        proof {
                            assert(same_event(self.event->0.event, a0.content.events@[k as int]));
                        }
                    },
                    // No events authored: treat the node as cleared rather
                    // than stranding the player on an empty screen.
                    None => self.advance_after_node(),
                }
            },
            // A shop node has no screen here: it counts as cleared.
            NodeKind::Shop => self.advance_after_node(),
        }
    }

    fn resolve_event_choice(&mut self)
        requires
            old(self).wf(),
            old(self).event matches Some(ae) ==> (ae.result is None && old(self).ui.choice_cursor < ae.event.choices@.len()
                ==> outcome_fits(old(self).run.player, ae.event.choices@[old(self).ui.choice_cursor as int].outcome)),
        ensures
            final(self).wf(),
            chose(*old(self), *final(self)),
    {
        let outcome = match &self.event {
            None => {
                return ;
            },
            Some(active) => {
                if active.result.is_some() {
                    return ;
                }
                if self.ui.choice_cursor >= active.event.choices.len() {
                    return ;
                }
                active.event.choices[self.ui.choice_cursor].outcome
            },
        };
        let text = apply_outcome(&mut self.run.player, outcome, self.content.spells.as_slice(), &mut self.run.rng);
        let taken = self.event.take();
        match taken {
            Some(active) => {
                self.event = Some(ActiveEvent { event: active.event, result: Some(text) });
            },
            None => {},
        }
    }

    fn dismiss_result(&mut self)
        requires
            old(self).wf(),
        ensures
            final(self).wf(),
            dismissed(*old(self), *final(self)),
    {
        self.event = None;
        if !self.run.player.is_alive() {
            self.finish(RunOutcome::Lost);
        } else {
            self.advance_after_node();
        }
    }

    fn combat_command(&mut self, cmd: Command)
        requires
            old(self).wf(),
            old(self).combat matches Some(c) ==> command_fits(c, old(self).run.player, cmd),
        ensures
            final(self).wf(),
            commanded(*old(self), *final(self), cmd),
    {
        let mut combat = match self.combat.take() {
            Some(c) => c,
            None => {
                return ;
            },
        };
        let ghost a0 = App { combat: Some(combat), ..*self };
        let ghost c0 = combat;
        let ghost p0 = self.run.player;
        combat.apply(&mut self.run.player, &self.content.rules, cmd);
        let ghost c1 = combat;
        let ghost p1 = self.run.player;
        if !self.run.player.is_alive() {
            combat.note_player_death();
            let ghost c2 = combat;
            self.combat = Some(combat);
            self.finish(RunOutcome::Lost);
            proof {
                assert(death_noted(c1, c2));
                assert(applied(c0, c1, p0, p1, a0.content.rules, cmd));
            }
            return ;
        }
        let won = combat.phase == Phase::Won;
        self.combat = Some(combat);
        if won {
            if self.run.is_complete() {
                self.finish(RunOutcome::Won);
            } else {
                self.combat = None;
                self.advance_after_node();
            }
        }
        proof {
            assert(applied(c0, c1, p0, p1, a0.content.rules, cmd));
        }
    }

    fn advance_after_node(&mut self)
        ensures
            advanced(*old(self), *final(self)),
    {
        self.combat = None;
        self.event = None;
        self.ui.map_cursor = 0;
        self.ui.revealed = 0;
        self.screen = Screen::MapScreen;
    }

    fn finish(&mut self, outcome: RunOutcome)
        ensures
            finished(*old(self), *final(self), outcome),
    {
        self.outcome = Some(outcome);
        self.screen = Screen::GameOver;
    }
}

/// The spell cursor always lands on a spell: moving it round a non-empty
/// list of spells keeps it below the number of spells.
pub proof fn lemma_spell_cursor_stays_in_range(a: App, forward: bool)
    requires
        a.run.player.spells@.len() > 0,
    ensures
        spell_cursor_moved(a, forward) < a.run.player.spells@.len(),
{
    let count = a.run.player.spells@.len() as int;
    let c = a.ui.spell_cursor as int;
    assert(0 <= c % count < count) by (nonlinear_arith)
        requires
            count > 0,
            c >= 0,
    ;
    assert(0 <= (c % count + 1) % count < count) by (nonlinear_arith)
        requires
            count > 0,
            c >= 0,
    ;
    assert(0 <= (c % count + count - 1) % count < count) by (nonlinear_arith)
        requires
            count > 0,
            c >= 0,
    ;
}

/// Focus moves one zone at a time and stops at either end: up from the top
/// stays at the top, down from the bottom stays at the bottom, and up then
/// down from the middle returns.
pub proof fn lemma_focus_clamps(f: Focus)
    ensures
        Focus::Enemies.up_spec() == Focus::Enemies,
        Focus::Spells.down_spec() == Focus::Spells,
        Focus::Actions.up_spec().down_spec() == Focus::Actions,
        Focus::Actions.down_spec().up_spec() == Focus::Actions,
        f.up_spec().up_spec() == Focus::Enemies,
        f.down_spec().down_spec() == Focus::Spells,
{
}

} // verus!
