use tui_game::action::Action;
use tui_game::app::{ACTION_CAST, ACTION_END_TURN, App, Focus, RunOutcome, Screen};
use tui_game::game::combat::rules::{Interaction, Modifier, NameRule, Rules, Targeting};
use tui_game::game::content::Content;
use tui_game::game::element::Element;
use tui_game::game::entity::EnemyKind;
use tui_game::game::event::{Choice, MapEvent, Outcome};
use tui_game::game::map::NodeKind;
use tui_game::game::run::{MAP_ROWS, Run};
use tui_game::game::spell::Spell;

fn spell(name: &str, cost: u8, element: Element, power: u16) -> Spell {
    Spell {
        name: name.into(),
        mana_cost: cost,
        element,
        power,
        art: vec![],
        blurb: String::new(),
    }
}

/// A small content set in the shape of the shipped one.
fn content() -> Content {
    Content {
        spells: vec![
            spell("Ember", 1, Element::Flame, 3),
            spell("Douse", 1, Element::Water, 2),
            spell("Gust", 1, Element::Gust, 2),
            spell("Surge", 3, Element::Shock, 5),
        ],
        rules: Rules {
            interactions: vec![
                ((Element::Flame, Element::Water), Interaction::Fuse(Element::Steam)),
                (
                    (Element::Flame, Element::Gust),
                    Interaction::Modify(Modifier {
                        power_permille: 800,
                        targeting: Some(Targeting::All),
                        pierce: false,
                        adds: None,
                    }),
                ),
            ],
            names: vec![NameRule {
                element: Element::Flame,
                tier: Some(2),
                targeting: None,
                name: "Fireball".into(),
            }],
            element_statuses: vec![],
        },
        enemies: vec![
            EnemyKind {
                name: "Bat".into(),
                max_hp: 8,
                power: 2,
                element: Element::Gust,
                armor: 0,
                difficulty: 1,
                art: vec![],
            },
            EnemyKind {
                name: "Golem".into(),
                max_hp: 24,
                power: 5,
                element: Element::Earth,
                armor: 3,
                difficulty: 4,
                art: vec![],
            },
        ],
        events: vec![MapEvent {
            name: "Shrine".into(),
            prompt: "A quiet shrine.".into(),
            choices: vec![
                Choice { text: "Pray".into(), outcome: Outcome::Heal(5) },
                Choice { text: "Leave".into(), outcome: Outcome::Nothing },
            ],
        }],
    }
}

#[test]
fn a_new_run_offers_exactly_the_start_node() {
    let run = Run::new(&content(), 1);
    assert_eq!(run.available(), vec![run.map.start()]);
    assert_eq!(run.depth(), 0);
}

#[test]
fn a_full_climb_always_reaches_the_boss() {
    // Walk the map greedily from every seed; the run must always be
    // completable, never dead-ended.
    for seed in 0..100 {
        let mut run = Run::new(&content(), seed);
        let mut steps = 0;
        while !run.is_complete() {
            let next = run.available();
            assert!(
                !next.is_empty(),
                "seed {seed} dead-ended at depth {}",
                run.depth()
            );
            run.enter(next[0]);
            steps += 1;
            assert!(steps <= MAP_ROWS + 2, "seed {seed} did not terminate");
        }
        assert_eq!(run.depth(), MAP_ROWS - 1);
    }
}

#[test]
fn the_encounter_budget_grows_with_depth() {
    let mut run = Run::new(&content(), 3);
    let shallow = run.encounter_budget();
    while !run.is_complete() {
        let next = run.available();
        run.enter(next[0]);
    }
    assert!(run.encounter_budget() > shallow);
}

#[test]
fn the_same_seed_produces_the_same_run() {
    let a = Run::new(&content(), 12345);
    let b = Run::new(&content(), 12345);
    assert_eq!(a.map.nodes.len(), b.map.nodes.len());
    for (x, y) in a.map.nodes.iter().zip(b.map.nodes.iter()) {
        assert_eq!(x.kind, y.kind);
        assert_eq!(x.next, y.next);
    }
}

#[test]
fn the_player_starts_with_spells_and_full_resources() {
    let run = Run::new(&content(), 1);
    assert!(!run.player.spells.is_empty());
    assert_eq!(run.player.hp, run.player.max_hp);
    assert_eq!(run.player.mana, run.player.max_mana);
}

#[test]
fn entering_moves_and_records_the_visit() {
    let mut run = Run::new(&content(), 9);
    assert_eq!(run.current_kind(), None);
    let start = run.map.start();
    assert!(run.can_enter(start));
    assert!(!run.can_enter(run.map.boss()));
    run.enter(start);
    assert_eq!(run.position, Some(start));
    assert_eq!(run.visited, vec![start]);
    assert_eq!(run.current_kind(), Some(NodeKind::Fight));
    assert_eq!(run.player.spells.len(), 3);
    assert_eq!(run.encounter_budget(), 2);
}

fn app() -> App {
    App::new(content(), 1)
}

fn in_fight() -> App {
    let mut app = app();
    app.apply(Action::Confirm);
    app
}

#[test]
fn a_new_app_starts_on_the_map_with_one_choice() {
    let app = app();
    assert_eq!(app.screen, Screen::MapScreen);
    assert_eq!(app.nodes_available().len(), 1);
    assert!(app.outcome.is_none());
}

#[test]
fn confirming_on_the_map_starts_a_fight() {
    let app = in_fight();
    assert_eq!(app.screen, Screen::Combat);
    assert!(
        !app.combat
            .as_ref()
            .expect("fight created")
            .enemies
            .is_empty()
    );
    assert_eq!(app.ui.focus, Focus::Spells, "turns start on the spell row");
}

#[test]
fn up_and_down_cycle_focus_and_stop_at_the_ends() {
    let mut app = in_fight();
    assert_eq!(app.ui.focus, Focus::Spells);
    app.apply(Action::NavUp);
    assert_eq!(app.ui.focus, Focus::Actions);
    app.apply(Action::NavUp);
    assert_eq!(app.ui.focus, Focus::Enemies);
    // Clamps rather than wrapping, so holding up never loops around.
    app.apply(Action::NavUp);
    assert_eq!(app.ui.focus, Focus::Enemies);

    app.apply(Action::NavDown);
    assert_eq!(app.ui.focus, Focus::Actions);
    app.apply(Action::NavDown);
    assert_eq!(app.ui.focus, Focus::Spells);
    app.apply(Action::NavDown);
    assert_eq!(app.ui.focus, Focus::Spells);
}

#[test]
fn the_whole_turn_is_playable_with_arrows_and_enter_alone() {
    let mut app = in_fight();
    let target = app.combat.as_ref().unwrap().target;
    let before = app.combat.as_ref().unwrap().enemies[target].hp;

    // Add the focused spell twice, then move to the action row and cast.
    app.apply(Action::Confirm);
    app.apply(Action::Confirm);
    assert_eq!(app.combat.as_ref().unwrap().build.len(), 2);

    app.apply(Action::NavUp);
    assert_eq!(app.ui.focus, Focus::Actions);
    assert_eq!(app.ui.action_cursor, ACTION_CAST);
    app.apply(Action::Confirm);

    let combat = app.combat.as_ref().unwrap();
    assert!(combat.build.is_empty(), "casting clears the build");
    assert!(
        combat.enemies[target].hp < before || !combat.enemies[target].is_alive(),
        "target took no damage"
    );
}

#[test]
fn the_action_row_can_end_the_turn() {
    let mut app = in_fight();
    let round = app.combat.as_ref().unwrap().round;

    app.apply(Action::NavUp);
    app.apply(Action::NavRight);
    assert_eq!(app.ui.action_cursor, ACTION_END_TURN);
    app.apply(Action::Confirm);

    if app.screen == Screen::Combat {
        assert!(app.combat.as_ref().unwrap().round > round);
    }
}

#[test]
fn the_spell_cursor_wraps_and_stays_in_range() {
    let mut app = in_fight();
    let count = app.run.player.spells.len();
    assert!(count > 0);
    for _ in 0..(count * 3 + 1) {
        app.apply(Action::NavRight);
        assert!(app.ui.spell_cursor < count);
    }
    for _ in 0..(count * 3 + 1) {
        app.apply(Action::NavLeft);
        assert!(app.ui.spell_cursor < count);
    }
}

#[test]
fn confirming_a_target_returns_focus_to_the_spells() {
    let mut app = in_fight();
    app.apply(Action::NavUp);
    app.apply(Action::NavUp);
    assert_eq!(app.ui.focus, Focus::Enemies);
    app.apply(Action::Confirm);
    assert_eq!(app.ui.focus, Focus::Spells);
}

#[test]
fn building_an_incantation_beyond_your_mana_is_refused() {
    let mut app = in_fight();
    app.run.player.mana = 1;
    app.apply(Action::AddComponent(0));
    app.apply(Action::AddComponent(0));
    assert_eq!(app.combat.as_ref().unwrap().build.len(), 1);
}

#[test]
fn dying_ends_the_run() {
    let mut app = in_fight();
    app.run.player.hp = 1;
    for _ in 0..10 {
        if app.screen == Screen::GameOver {
            break;
        }
        app.apply(Action::EndTurn);
    }
    assert_eq!(app.screen, Screen::GameOver);
    assert_eq!(app.outcome, Some(RunOutcome::Lost));
}

#[test]
fn clearing_every_enemy_returns_to_the_map() {
    let mut app = in_fight();
    for enemy in &mut app.combat.as_mut().unwrap().enemies {
        enemy.hp = 1;
    }
    app.run.player.mana = 99;
    for _ in 0..12 {
        if app.screen != Screen::Combat {
            break;
        }
        app.apply(Action::AddComponent(0));
        app.apply(Action::EndTurn);
    }
    assert_ne!(app.screen, Screen::Combat, "fight did not resolve");
}

#[test]
fn the_log_reveals_gradually_rather_than_all_at_once() {
    let mut app = in_fight();
    app.apply(Action::AddComponent(0));
    app.apply(Action::NavUp);
    app.apply(Action::Confirm);

    let total = app.combat.as_ref().unwrap().log.len();
    assert!(total > 1);
    assert_eq!(app.visible_log().len(), 0);
    app.tick();
    assert_eq!(app.visible_log().len(), 1);
    for _ in 0..total {
        app.tick();
    }
    assert_eq!(app.visible_log().len(), total);
}

#[test]
fn quitting_sets_the_flag() {
    let mut app = app();
    app.apply(Action::Quit);
    assert!(app.should_quit);
}

#[test]
fn winning_a_fight_returns_to_the_map_and_restart_begins_again() {
    let mut app = in_fight();
    for enemy in &mut app.combat.as_mut().unwrap().enemies {
        enemy.hp = 1;
    }
    // Ember and Gust make a spell that hits everything.
    app.apply(Action::AddComponent(0));
    app.apply(Action::AddComponent(2));
    app.apply(Action::NavUp);
    app.apply(Action::Confirm);
    assert_eq!(app.screen, Screen::MapScreen);
    assert!(app.combat.is_none());
    assert_eq!(app.ui.map_cursor, 0);

    app.screen = Screen::GameOver;
    app.apply(Action::Restart);
    assert_eq!(app.screen, Screen::MapScreen);
    assert!(app.run.position.is_none());
    assert!(app.outcome.is_none());
    assert!(!app.awaiting_dismiss());
}

#[test]
fn events_wait_for_a_choice_and_then_for_dismissal() {
    let mut app = app();
    app.screen = Screen::Event;
    app.event = Some(tui_game::app::ActiveEvent { event: content().events[0].clone(), result: None });
    app.run.player.hp = 10;
    app.apply(Action::NavDown);
    assert_eq!(app.ui.choice_cursor, 1);
    app.apply(Action::NavDown);
    assert_eq!(app.ui.choice_cursor, 0);
    app.apply(Action::Confirm);
    assert!(app.awaiting_dismiss());
    assert_eq!(app.run.player.hp, 15);
    assert_eq!(app.event.as_ref().unwrap().result.as_deref(), Some("You recover 5 health."));
    app.apply(Action::NavDown);
    assert_eq!(app.ui.choice_cursor, 0, "a pending result swallows navigation");
    app.apply(Action::Confirm);
    assert!(app.event.is_none());
    assert_eq!(app.screen, Screen::MapScreen);
}

#[test]
fn an_app_from_content_draws_a_fresh_seed() {
    let a = App::from_content(content());
    let b = App::from_content(content());
    assert_ne!(a.run.seed, b.run.seed);
    assert_eq!(a.screen, Screen::MapScreen);
}
