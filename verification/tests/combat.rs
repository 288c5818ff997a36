use tui_game::game::combat::incantation::{ResolvedSpell, resolve};
use tui_game::game::combat::resolve::{damage_against, enemy_damage};
use tui_game::game::combat::rules::{ElementStatus, Interaction, Modifier, NameRule, Rules, Targeting};
use tui_game::game::combat::{Combat, Command, Event, Phase};
use tui_game::game::element::Element;
use tui_game::game::entity::{Enemy, EnemyKind, Player};
use tui_game::game::spell::Spell;
use tui_game::game::status::Status;

fn enemy(armor: u16) -> Enemy {
    Enemy::from_kind(&EnemyKind {
        name: "Dummy".into(),
        max_hp: 20,
        power: 4,
        element: Element::Earth,
        armor,
        difficulty: 1,
        art: vec![],
    })
}

fn resolved(element: Element, damage: u16, pierce: bool) -> ResolvedSpell {
    ResolvedSpell {
        name: "Test".into(),
        element,
        tier: 1,
        damage,
        targeting: Targeting::Single,
        pierce,
        statuses: vec![],
        mana_cost: 1,
    }
}

#[test]
fn armor_reduces_damage() {
    let e = enemy(3);
    assert_eq!(damage_against(&e, &resolved(Element::Flame, 10, false)), 7);
}

#[test]
fn pierce_ignores_armor() {
    let e = enemy(3);
    assert_eq!(damage_against(&e, &resolved(Element::Flame, 10, true)), 10);
}

#[test]
fn armor_cannot_push_damage_below_zero() {
    let e = enemy(100);
    assert_eq!(damage_against(&e, &resolved(Element::Flame, 5, false)), 0);
}

#[test]
fn shock_doubles_against_a_wet_target() {
    let mut e = enemy(0);
    e.statuses.apply(Status::Wet, 2);
    assert_eq!(damage_against(&e, &resolved(Element::Shock, 6, false)), 12);
    // Only Shock benefits.
    assert_eq!(damage_against(&e, &resolved(Element::Flame, 6, false)), 6);
}

#[test]
fn wet_doubling_happens_before_armor() {
    let mut e = enemy(4);
    e.statuses.apply(Status::Wet, 2);
    // (6 * 2) - 4, not (6 - 4) * 2
    assert_eq!(damage_against(&e, &resolved(Element::Shock, 6, false)), 8);
}

#[test]
fn blind_halves_an_enemys_output() {
    let mut e = enemy(0);
    assert_eq!(enemy_damage(&e), 4);
    e.statuses.apply(Status::Blind, 2);
    assert_eq!(enemy_damage(&e), 2);
}

fn spell(name: &str, cost: u8, element: Element, power: u16) -> Spell {
    Spell {
        name: name.into(),
        mana_cost: cost,
        element,
        power,
        art: vec![],
        blurb: String::new(),
    }
}

fn ember() -> Spell {
    spell("Ember", 1, Element::Flame, 3)
}
fn douse() -> Spell {
    spell("Douse", 1, Element::Water, 2)
}
fn gust() -> Spell {
    spell("Gust", 1, Element::Gust, 2)
}
fn surge() -> Spell {
    spell("Surge", 3, Element::Shock, 5)
}

/// Rule power multipliers are held in thousandths.
fn modifier(power: f32, targeting: Option<Targeting>) -> Interaction {
    Interaction::Modify(Modifier {
        power_permille: (f64::from(power) * 1000.0).round() as u32,
        targeting,
        pierce: false,
        adds: None,
    })
}

fn test_rules() -> Rules {
    Rules {
        interactions: vec![
            (
                (Element::Flame, Element::Water),
                Interaction::Fuse(Element::Steam),
            ),
            (
                (Element::Flame, Element::Gust),
                modifier(0.8, Some(Targeting::All)),
            ),
            ((Element::Shock, Element::Water), modifier(2.0, None)),
        ],
        names: vec![
            NameRule {
                element: Element::Flame,
                tier: Some(1),
                targeting: None,
                name: "Ember".into(),
            },
            NameRule {
                element: Element::Flame,
                tier: Some(2),
                targeting: None,
                name: "Fireball".into(),
            },
            NameRule {
                element: Element::Flame,
                tier: None,
                targeting: Some(Targeting::All),
                name: "Firestorm".into(),
            },
            NameRule {
                element: Element::Steam,
                tier: None,
                targeting: None,
                name: "Steam Burst".into(),
            },
        ],
        element_statuses: vec![ElementStatus {
            element: Element::Flame,
            min_tier: 2,
            status: Status::Burned,
            rounds: 2,
        }],
    }
}

#[test]
fn empty_bag_resolves_to_nothing() {
    assert!(resolve(&[], &test_rules()).is_none());
}

#[test]
fn a_single_component_is_itself() {
    let r = resolve(&[ember()], &test_rules()).unwrap();
    assert_eq!(r.name, "Ember");
    assert_eq!(r.element, Element::Flame);
    assert_eq!(r.tier, 1);
    assert_eq!(r.damage, 3);
    assert_eq!(r.targeting, Targeting::Single);
    assert!(r.statuses.is_empty(), "tier 1 Flame does not burn");
}

#[test]
fn stacking_the_same_element_raises_tier_and_sums_power() {
    let r = resolve(&[ember(), ember()], &test_rules()).unwrap();
    assert_eq!(r.name, "Fireball");
    assert_eq!(r.tier, 2);
    assert_eq!(r.damage, 6);
    assert_eq!(r.statuses, vec![(Status::Burned, 2)]);
}

#[test]
fn a_modifier_reshapes_the_spell_and_can_reduce_damage() {
    // Adding Gust converts the spell to hit everything, at the cost of power.
    let r = resolve(&[ember(), ember(), gust()], &test_rules()).unwrap();
    assert_eq!(r.name, "Firestorm");
    assert_eq!(r.targeting, Targeting::All);
    assert_eq!(r.damage, 5, "6 * 0.8 = 4.8, rounds to 5");
    assert_eq!(r.tier, 2, "Gust is not the base, so tier is unchanged");
}

#[test]
fn modifier_power_does_not_contribute_to_damage() {
    // Surge alone is 5. Douse adds 2 power but is a modifier, so the only
    // thing it does is double -- 10, not (5+2)*2.
    let r = resolve(&[surge(), douse()], &test_rules()).unwrap();
    assert_eq!(r.element, Element::Shock);
    assert_eq!(r.damage, 10);
}

#[test]
fn an_even_split_fuses_instead_of_needing_a_tiebreak() {
    let r = resolve(&[ember(), douse()], &test_rules()).unwrap();
    assert_eq!(r.name, "Steam Burst");
    assert_eq!(r.element, Element::Steam);
    assert_eq!(r.damage, 5, "fusion combines the power of both");
}

#[test]
fn mana_cost_is_the_sum_of_components() {
    let r = resolve(&[ember(), ember(), surge()], &test_rules()).unwrap();
    assert_eq!(r.mana_cost, 5);
}

#[test]
fn base_is_the_highest_power_element() {
    let r = resolve(&[surge(), gust()], &test_rules()).unwrap();
    assert_eq!(r.element, Element::Shock, "5 power beats 2");
}

/// Every ordering of `items`.
fn permutations(items: &[Spell]) -> Vec<Vec<Spell>> {
    if items.len() <= 1 {
        return vec![items.to_vec()];
    }
    let mut out = Vec::new();
    for i in 0..items.len() {
        let mut rest = items.to_vec();
        let first = rest.remove(i);
        for mut tail in permutations(&rest) {
            tail.insert(0, first.clone());
            out.push(tail);
        }
    }
    out
}

/// The guarantee the whole design rests on. Order inside the bag must not
/// matter, so it is checked directly rather than hoped for.
#[test]
fn resolution_is_order_independent() {
    let rules = test_rules();
    let bags = [
        vec![ember(), ember(), gust()],
        vec![ember(), douse()],
        vec![surge(), douse(), gust()],
        vec![ember(), douse(), surge(), gust()],
    ];

    for bag in bags {
        let expected = resolve(&bag, &rules);
        for perm in permutations(&bag) {
            assert_eq!(
                resolve(&perm, &rules),
                expected,
                "permutation {:?} resolved differently",
                perm.iter().map(|s| &s.name).collect::<Vec<_>>()
            );
        }
    }
}

#[test]
fn unnamed_combinations_still_get_a_sensible_name() {
    let r = resolve(&[gust(), gust()], &test_rules()).unwrap();
    assert_eq!(r.name, "Gust II");
}

// The fight's state machine.

fn player() -> Player {
    Player::new(vec![ember(), douse(), gust(), surge()])
}

fn fight(hp: u16) -> Combat {
    let mut a = enemy(0);
    a.hp = hp;
    let mut b = enemy(0);
    b.hp = hp;
    Combat::new(vec![a, b])
}

#[test]
fn a_command_beyond_the_mana_is_refused_and_logged() {
    let mut p = player();
    p.mana = 1;
    let mut c = fight(20);
    let rules = test_rules();
    c.apply(&mut p, &rules, Command::AddComponent(0));
    let events = c.apply(&mut p, &rules, Command::AddComponent(0));
    assert_eq!(c.build.len(), 1);
    assert_eq!(events, vec![Event::Refused("not enough mana")]);
    assert_eq!(c.log.last(), Some(&Event::Refused("not enough mana")));
    let events = c.apply(&mut p, &rules, Command::AddComponent(9));
    assert_eq!(events, vec![Event::Refused("no spell in that slot")]);
}

#[test]
fn casting_an_empty_build_is_refused() {
    let mut p = player();
    let mut c = fight(20);
    let events = c.apply(&mut p, &test_rules(), Command::Cast);
    assert_eq!(events, vec![Event::Refused("nothing to cast")]);
    assert_eq!(p.mana, 5);
}

#[test]
fn casting_spends_mana_strikes_the_target_and_clears_the_build() {
    let mut p = player();
    let mut c = fight(20);
    let rules = test_rules();
    c.apply(&mut p, &rules, Command::AddComponent(0));
    c.apply(&mut p, &rules, Command::AddComponent(0));
    let events = c.apply(&mut p, &rules, Command::Cast);
    assert_eq!(p.mana, 3);
    assert!(c.build.is_empty());
    assert_eq!(c.enemies[0].hp, 14);
    assert_eq!(c.enemies[1].hp, 20);
    assert_eq!(events[0], Event::Cast { name: "Fireball".into() });
    assert_eq!(events[1], Event::Damaged { target: "Dummy".into(), amount: 6 });
    assert_eq!(events[2], Event::StatusApplied { target: "Dummy".into(), status: Status::Burned });
    assert_eq!(events.len(), 3);
    assert_eq!(c.log, events);
}

#[test]
fn killing_every_enemy_wins_the_fight_and_then_commands_are_ignored() {
    let mut p = player();
    let mut c = fight(1);
    let rules = test_rules();
    c.apply(&mut p, &rules, Command::AddComponent(0));
    c.apply(&mut p, &rules, Command::AddComponent(2));
    let events = c.apply(&mut p, &rules, Command::Cast);
    assert_eq!(c.phase, Phase::Won);
    assert_eq!(events.last(), Some(&Event::Won));
    let before = c.log.len();
    let events = c.apply(&mut p, &rules, Command::EndTurn);
    assert!(events.is_empty());
    assert_eq!(c.log.len(), before);
}

#[test]
fn ending_the_turn_lets_enemies_attack_and_refills_mana() {
    let mut p = player();
    let mut c = fight(20);
    let rules = test_rules();
    c.apply(&mut p, &rules, Command::AddComponent(3));
    c.apply(&mut p, &rules, Command::Cast);
    assert_eq!(p.mana, 2);
    let events = c.apply(&mut p, &rules, Command::EndTurn);
    assert_eq!(events[0], Event::TurnEnded);
    assert_eq!(events[1], Event::EnemyAttacked { name: "Dummy".into(), amount: 4 });
    assert_eq!(events[2], Event::EnemyAttacked { name: "Dummy".into(), amount: 4 });
    assert_eq!(p.hp, 12);
    assert_eq!(p.mana, 5);
    assert_eq!(c.round, 2);
}

#[test]
fn a_frozen_enemy_thaws_instead_of_attacking() {
    let mut p = player();
    let mut c = fight(20);
    c.enemies[0].statuses.apply(Status::Frozen, 3);
    let events = c.apply(&mut p, &test_rules(), Command::EndTurn);
    assert_eq!(events[1], Event::EnemyAttacked { name: "Dummy".into(), amount: 4 });
    assert_eq!(p.hp, 16);
    assert!(!c.enemies[0].statuses.has(Status::Frozen));
}

#[test]
fn status_damage_ticks_at_the_end_of_the_round() {
    let mut p = player();
    let mut c = fight(20);
    c.enemies[0].statuses.apply(Status::Burned, 1);
    let events = c.apply(&mut p, &test_rules(), Command::EndTurn);
    assert!(events.contains(&Event::StatusTicked { target: "Dummy".into(), amount: 2 }));
    assert_eq!(c.enemies[0].hp, 18);
    assert!(c.enemies[0].statuses.is_empty());
}

#[test]
fn targeting_cycles_through_living_enemies() {
    let mut p = player();
    let mut c = fight(20);
    let rules = test_rules();
    assert_eq!(c.target, 0);
    c.apply(&mut p, &rules, Command::TargetNext);
    assert_eq!(c.target, 1);
    c.apply(&mut p, &rules, Command::TargetNext);
    assert_eq!(c.target, 0);
    c.apply(&mut p, &rules, Command::TargetPrev);
    assert_eq!(c.target, 1);
}

#[test]
fn undo_and_clear_shrink_the_build() {
    let mut p = player();
    let mut c = fight(20);
    let rules = test_rules();
    c.apply(&mut p, &rules, Command::AddComponent(0));
    c.apply(&mut p, &rules, Command::AddComponent(1));
    c.apply(&mut p, &rules, Command::UndoComponent);
    assert_eq!(c.build, vec![0]);
    c.apply(&mut p, &rules, Command::ClearBuild);
    assert!(c.build.is_empty());
}

#[test]
fn a_dead_player_is_noted_once() {
    let mut c = fight(20);
    let events = c.note_player_death();
    assert_eq!(events, vec![Event::Lost]);
    assert_eq!(c.phase, Phase::Lost);
    assert!(c.note_player_death().is_empty());
}

#[test]
fn every_event_has_a_log_line() {
    assert_eq!(Event::Cast { name: "Fireball".into() }.message(), "You cast Fireball.");
    assert_eq!(
        Event::Damaged { target: "Bat".into(), amount: 12 }.message(),
        "  Bat takes 12 damage."
    );
    assert_eq!(
        Event::StatusApplied { target: "Bat".into(), status: Status::Wet }.message(),
        "  Bat is Wet."
    );
    assert_eq!(Event::Refused("not enough mana").message(), "(not enough mana)");
    assert_eq!(Event::TurnEnded.message(), "-- turn --");
}

#[test]
fn the_preview_matches_what_is_cast() {
    let mut p = player();
    let mut c = fight(20);
    let rules = test_rules();
    c.apply(&mut p, &rules, Command::AddComponent(0));
    c.apply(&mut p, &rules, Command::AddComponent(1));
    let preview = c.preview(&p, &rules).unwrap();
    assert_eq!(preview.name, "Steam Burst");
    assert_eq!(c.committed_mana(&p), 2);
    assert_eq!(c.living_enemies(), vec![0, 1]);
}

#[test]
fn modifiers_compound_exactly_and_round_once() {
    // 1 * 1.39 * 0.6 * 3.0 = 2.502, which rounds to 3. Rounding after each
    // modifier would lose the fraction on the way and give 2.
    let rules = Rules {
        interactions: vec![
            ((Element::Flame, Element::Ice), modifier(1.39, None)),
            ((Element::Flame, Element::Shock), modifier(0.6, None)),
            ((Element::Flame, Element::Earth), modifier(3.0, None)),
        ],
        names: vec![],
        element_statuses: vec![],
    };
    let bag = [
        spell("Spark", 1, Element::Flame, 1),
        spell("Chill", 1, Element::Ice, 0),
        spell("Jolt", 1, Element::Shock, 0),
        spell("Pebble", 1, Element::Earth, 0),
    ];
    let r = resolve(&bag, &rules).unwrap();
    assert_eq!(r.element, Element::Flame);
    assert_eq!(r.damage, 3);
}

#[test]
fn a_zeroing_modifier_after_a_huge_one_gives_nothing() {
    let rules = Rules {
        interactions: vec![
            ((Element::Flame, Element::Ice), modifier(655.35, None)),
            ((Element::Flame, Element::Shock), modifier(655.35, None)),
            ((Element::Flame, Element::Earth), modifier(655.35, None)),
            ((Element::Flame, Element::Gust), modifier(655.35, None)),
            ((Element::Flame, Element::Toxic), modifier(0.0, None)),
        ],
        names: vec![],
        element_statuses: vec![],
    };
    let huge = [
        spell("Spark", 1, Element::Flame, 60000),
        spell("Chill", 1, Element::Ice, 0),
        spell("Jolt", 1, Element::Shock, 0),
        spell("Pebble", 1, Element::Earth, 0),
        spell("Breeze", 1, Element::Gust, 0),
    ];
    assert_eq!(resolve(&huge, &rules).unwrap().damage, u16::MAX);
    let mut zeroed = huge.to_vec();
    zeroed.push(spell("Fume", 1, Element::Toxic, 0));
    assert_eq!(resolve(&zeroed, &rules).unwrap().damage, 0);
}

#[test]
fn a_multiplier_finer_than_a_percent_still_counts() {
    // 250 * 1.004 = 251.
    let rules = Rules {
        interactions: vec![((Element::Flame, Element::Ice), modifier(1.004, None))],
        names: vec![],
        element_statuses: vec![],
    };
    let bag = [
        spell("Blaze", 1, Element::Flame, 250),
        spell("Chill", 1, Element::Ice, 0),
    ];
    assert_eq!(resolve(&bag, &rules).unwrap().damage, 251);
}
