use tui_game::game::element::Element;
use tui_game::game::entity::{Enemy, EnemyKind, Intent, Player};
use tui_game::game::spell::{SPELL_SLOTS, Spell};
use tui_game::game::status::{ActiveStatus, Status, Statuses};

#[test]
fn all_contains_every_variant() {
    // Guards against adding a variant and forgetting to list it in ALL.
    for e in Element::ALL {
        assert!(!e.name().is_empty());
    }
    let mut sorted = Element::ALL;
    sorted.sort();
    sorted.windows(2).for_each(|w| assert_ne!(w[0], w[1]));
    assert_eq!(sorted.len(), Element::ALL.len());
}

#[test]
fn ordering_is_declaration_order() {
    // Resolution tiebreaks depend on this.
    assert!(Element::Flame < Element::Water);
    assert!(Element::Water < Element::Toxic);
}

#[test]
fn fusion_elements_are_marked() {
    assert!(Element::Steam.is_fusion());
    assert!(!Element::Flame.is_fusion());
    assert_eq!(Element::Blizzard.name(), "Blizzard");
}

fn spell(cost: u8) -> Spell {
    Spell {
        name: "Test".into(),
        mana_cost: cost,
        element: Element::Flame,
        power: 1,
        art: vec![],
        blurb: String::new(),
    }
}

#[test]
fn equipping_more_than_the_slot_count_truncates() {
    let p = Player::new(vec![spell(1); SPELL_SLOTS + 3]);
    assert_eq!(p.spells.len(), SPELL_SLOTS);
}

#[test]
fn damage_saturates_at_zero_rather_than_underflowing() {
    let mut p = Player::new(vec![]);
    p.take_damage(9999);
    assert_eq!(p.hp, 0);
    assert!(!p.is_alive());
}

#[test]
fn healing_does_not_exceed_max() {
    let mut p = Player::new(vec![]);
    p.take_damage(5);
    p.heal(100);
    assert_eq!(p.hp, p.max_hp);
}

#[test]
fn can_afford_anything_reflects_remaining_mana() {
    let mut p = Player::new(vec![spell(3)]);
    p.mana = 3;
    assert!(p.can_afford_anything());
    p.mana = 2;
    assert!(!p.can_afford_anything());
}

#[test]
fn a_new_player_starts_full_and_refills_mana() {
    let mut p = Player::new(vec![spell(1)]);
    assert_eq!((p.hp, p.max_hp, p.mana, p.max_mana, p.gold), (20, 20, 5, 5, 0));
    p.mana = 0;
    p.refill_mana();
    assert_eq!(p.mana, 5);
    assert!(p.spell(0).is_some());
    assert!(p.spell(1).is_none());
    p.take_damage(7);
    p.heal(3);
    assert_eq!(p.hp, 16);
}

#[test]
fn apply_refreshes_to_longer_duration_rather_than_stacking() {
    let mut s = Statuses::new();
    s.apply(Status::Burned, 2);
    s.apply(Status::Burned, 4);
    assert_eq!(s.iter().count(), 1);
    assert_eq!(s.iter().next().unwrap().rounds, 4);

    // A shorter application does not shorten an existing one.
    s.apply(Status::Burned, 1);
    assert_eq!(s.iter().next().unwrap().rounds, 4);
}

#[test]
fn statuses_expire_after_their_duration() {
    let mut s = Statuses::new();
    s.apply(Status::Wet, 2);
    s.tick();
    assert!(s.has(Status::Wet));
    s.tick();
    assert!(!s.has(Status::Wet));
    assert!(s.is_empty());
}

#[test]
fn applying_zero_rounds_is_a_no_op() {
    let mut s = Statuses::new();
    s.apply(Status::Frozen, 0);
    assert!(s.is_empty());
}

#[test]
fn iteration_order_is_deterministic() {
    let mut a = Statuses::new();
    a.apply(Status::Poisoned, 1);
    a.apply(Status::Burned, 1);

    let mut b = Statuses::new();
    b.apply(Status::Burned, 1);
    b.apply(Status::Poisoned, 1);

    let order = |s: &Statuses| s.iter().map(|x| x.status).collect::<Vec<_>>();
    assert_eq!(order(&a), order(&b));
}

#[test]
fn tick_damage_sums_over_active_statuses() {
    let mut s = Statuses::new();
    s.apply(Status::Burned, 1); // 2
    s.apply(Status::Poisoned, 1); // 1
    s.apply(Status::Wet, 1); // 0
    assert_eq!(s.tick_damage(), 3);
}

#[test]
fn removing_a_status_leaves_the_others() {
    let mut s = Statuses::new();
    s.apply(Status::Burned, 2);
    s.apply(Status::Wet, 2);
    s.remove(Status::Burned);
    assert!(!s.has(Status::Burned));
    assert!(s.has(Status::Wet));
    assert_eq!(Status::Poisoned.name(), "Poisoned");
    assert_eq!(Status::Burned.tick_damage(), 2);
}

#[test]
fn an_enemy_starts_fresh_from_its_kind() {
    let kind = EnemyKind {
        name: "Bat".into(),
        max_hp: 8,
        power: 2,
        element: Element::Gust,
        armor: 0,
        difficulty: 1,
        art: vec!["/\\".into()],
    };
    let e: Enemy = Enemy::from_kind(&kind);
    assert_eq!(e.hp, 8);
    assert!(e.is_alive());
    assert!(e.statuses.is_empty());
    assert_eq!(e.intent, Intent::Attack(2));
    assert_eq!(e.intent.label(), "Attack 2");
    assert_eq!(Intent::Attack(14).label(), "Attack 14");
}

#[test]
fn applying_refreshes_one_entry_and_leaves_the_others() {
    let mut s = Statuses::new();
    s.apply(Status::Poisoned, 2);
    s.apply(Status::Burned, 3);
    s.apply(Status::Wet, 1);
    let before: Vec<ActiveStatus> = s.entries().to_vec();
    s.apply(Status::Burned, 5);
    let after: Vec<ActiveStatus> = s.entries().to_vec();
    assert_eq!(after.len(), before.len());
    let burned: Vec<&ActiveStatus> = after.iter().filter(|e| e.status == Status::Burned).collect();
    assert_eq!(burned.len(), 1);
    assert_eq!(burned[0].rounds, 5);
    let others = |v: &[ActiveStatus]| v.iter().filter(|e| e.status != Status::Burned).copied().collect::<Vec<_>>();
    assert_eq!(others(&after), others(&before));
    // A shorter application keeps the longer duration.
    s.apply(Status::Burned, 1);
    assert_eq!(s.entries().to_vec(), after);
}
