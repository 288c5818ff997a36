use rand::SeedableRng;
use rand::rngs::StdRng;

use tui_game::game::element::Element;
use tui_game::game::encounter::{self, MAX_ENEMIES};
use tui_game::game::entity::{EnemyKind, Player};
use tui_game::game::event::{Outcome, apply_outcome};
use tui_game::game::reward::{self, OFFER_COUNT};
use tui_game::game::shop::{self, BuyError, Shop, ShopItem};
use tui_game::game::spell::{SPELL_SLOTS, Spell};

fn kinds() -> Vec<EnemyKind> {
    vec![
        EnemyKind {
            name: "Bat".into(),
            max_hp: 8,
            power: 2,
            element: Element::Gust,
            armor: 0,
            difficulty: 1,
            art: vec![],
        },
        EnemyKind {
            name: "Golem".into(),
            max_hp: 24,
            power: 5,
            element: Element::Earth,
            armor: 3,
            difficulty: 4,
            art: vec![],
        },
    ]
}

#[test]
fn a_fight_is_never_empty() {
    let mut rng = StdRng::seed_from_u64(7);
    for budget in 0..12 {
        let enemies = encounter::generate(&kinds(), budget, &mut rng);
        assert!(!enemies.is_empty(), "budget {budget} produced no enemies");
    }
}

#[test]
fn an_empty_pool_yields_an_empty_fight_rather_than_panicking() {
    let mut rng = StdRng::seed_from_u64(1);
    assert!(encounter::generate(&[], 10, &mut rng).is_empty());
}

#[test]
fn enemy_count_is_capped_for_readability() {
    let mut rng = StdRng::seed_from_u64(3);
    let enemies = encounter::generate(&kinds(), 200, &mut rng);
    assert!(enemies.len() <= MAX_ENEMIES);
}

#[test]
fn a_bigger_budget_buys_more_or_tougher_enemies() {
    let mut rng = StdRng::seed_from_u64(11);
    let small: u32 = (0..40)
        .map(|_| {
            encounter::generate(&kinds(), 2, &mut rng)
                .iter()
                .map(|e| u32::from(e.max_hp))
                .sum::<u32>()
        })
        .sum();
    let large: u32 = (0..40)
        .map(|_| {
            encounter::generate(&kinds(), 10, &mut rng)
                .iter()
                .map(|e| u32::from(e.max_hp))
                .sum::<u32>()
        })
        .sum();
    assert!(large > small, "budget did not translate into difficulty");
}

#[test]
fn enemies_start_at_full_health() {
    let mut rng = StdRng::seed_from_u64(5);
    for enemy in encounter::generate(&kinds(), 8, &mut rng) {
        assert_eq!(enemy.hp, enemy.max_hp);
        assert!(enemy.is_alive());
    }
}

#[test]
fn mod_generation_is_reproducible_from_a_seed() {
    let names = |seed| {
        encounter::generate(&kinds(), 8, &mut StdRng::seed_from_u64(seed))
            .iter()
            .map(|e| e.name.clone())
            .collect::<Vec<_>>()
    };
    assert_eq!(names(99), names(99));
}

#[test]
fn a_budget_too_small_for_anything_buys_the_weakest() {
    let mut rng = StdRng::seed_from_u64(2);
    let mut pool = kinds();
    pool[0].difficulty = 6;
    let enemies = encounter::generate(&pool, 3, &mut rng);
    assert_eq!(enemies.len(), 1);
    assert_eq!(enemies[0].name, "Golem");
}

#[test]
fn a_fight_never_spends_more_than_its_budget() {
    let mut rng = StdRng::seed_from_u64(17);
    for budget in 1..20u8 {
        let enemies = encounter::generate(&kinds(), budget, &mut rng);
        let spent: u32 = enemies
            .iter()
            .map(|e| if e.name == "Bat" { 1 } else { 4 })
            .sum();
        assert!(spent <= u32::from(budget));
    }
}

fn spell(name: &str) -> Spell {
    Spell {
        name: name.into(),
        mana_cost: 1,
        element: Element::Flame,
        power: 1,
        art: vec![],
        blurb: String::new(),
    }
}

fn reward_pool() -> Vec<Spell> {
    ["a", "b", "c", "d", "e"].iter().map(|n| spell(n)).collect()
}

#[test]
fn offers_never_duplicate_a_spell_you_already_have() {
    let mut rng = StdRng::seed_from_u64(4);
    let known = vec![spell("a"), spell("b")];
    for _ in 0..50 {
        let reward = reward::generate(&reward_pool(), &known, 1, &mut rng);
        for offer in &reward.offers {
            assert!(
                offer.name != "a" && offer.name != "b",
                "offered {}, which the player already carries",
                offer.name
            );
        }
    }
}

#[test]
fn offers_are_distinct_from_each_other() {
    let mut rng = StdRng::seed_from_u64(9);
    for _ in 0..50 {
        let reward = reward::generate(&reward_pool(), &[], 1, &mut rng);
        let mut names: Vec<&str> = reward.offers.iter().map(|s| s.name.as_str()).collect();
        names.sort_unstable();
        let count = names.len();
        names.dedup();
        assert_eq!(names.len(), count, "the same spell was offered twice");
    }
}

#[test]
fn at_most_three_are_offered() {
    let mut rng = StdRng::seed_from_u64(1);
    let reward = reward::generate(&reward_pool(), &[], 1, &mut rng);
    assert!(reward.offers.len() <= OFFER_COUNT);
}

/// Once the player knows everything, there is nothing left to offer. The
/// reward screen must cope with an empty list rather than assume three.
#[test]
fn an_exhausted_pool_yields_gold_but_no_offers() {
    let mut rng = StdRng::seed_from_u64(1);
    let reward = reward::generate(&reward_pool(), &reward_pool(), 1, &mut rng);
    assert!(reward.offers.is_empty());
    assert!(reward.gold > 0);
}

#[test]
fn deeper_fights_pay_better() {
    let mut rng = StdRng::seed_from_u64(2);
    let shallow = reward::generate(&reward_pool(), &[], 0, &mut rng).gold;
    let deep = reward::generate(&reward_pool(), &[], 4, &mut rng).gold;
    assert!(deep > shallow);
}

#[test]
fn a_reward_offers_exactly_three_and_pays_by_depth() {
    let mut rng = StdRng::seed_from_u64(6);
    let reward = reward::generate(&reward_pool(), &[spell("e")], 3, &mut rng);
    assert_eq!(reward.offers.len(), 3);
    assert_eq!(reward.gold, 25);
    let two_left = reward::generate(&reward_pool(), &[spell("a"), spell("b"), spell("c")], 0, &mut rng);
    assert_eq!(two_left.offers.len(), 2);
}

fn shop_pool() -> Vec<Spell> {
    ["a", "b", "c", "d"].iter().map(|n| spell(n)).collect()
}

fn new_shop() -> Shop {
    shop::generate(&shop_pool(), &[], 1, &mut StdRng::seed_from_u64(3))
}

#[test]
fn stock_never_offers_a_spell_you_already_have() {
    let mut rng = StdRng::seed_from_u64(8);
    let known = vec![spell("a"), spell("b")];
    for _ in 0..40 {
        let shop = shop::generate(&shop_pool(), &known, 1, &mut rng);
        for entry in &shop.stock {
            if let ShopItem::Spell(s) = &entry.item {
                assert!(s.name != "a" && s.name != "b");
            }
        }
    }
}

#[test]
fn buying_without_enough_gold_changes_nothing() {
    let mut shop = new_shop();
    let mut player = Player::new(vec![]);
    player.gold = 0;
    assert_eq!(shop.buy(0, &mut player), Err(BuyError::NotEnoughGold));
    assert_eq!(player.gold, 0);
    assert!(
        !shop.stock[0].sold,
        "a failed purchase must not mark it sold"
    );
}

#[test]
fn buying_deducts_gold_and_marks_the_entry_sold() {
    let mut shop = new_shop();
    let mut player = Player::new(vec![]);
    player.gold = 500;
    let price = shop.stock[0].price;

    assert!(shop.buy(0, &mut player).is_ok());
    assert_eq!(player.gold, 500 - price);
    assert!(shop.stock[0].sold);
}

#[test]
fn the_same_entry_cannot_be_bought_twice() {
    let mut shop = new_shop();
    let mut player = Player::new(vec![]);
    player.gold = 500;
    assert!(shop.buy(0, &mut player).is_ok());
    assert_eq!(shop.buy(0, &mut player), Err(BuyError::AlreadySold));
}

#[test]
fn a_spell_bought_with_full_slots_reports_it_and_still_charges() {
    let mut shop = shop::generate(&shop_pool(), &[], 1, &mut StdRng::seed_from_u64(3));
    let index = shop
        .stock
        .iter()
        .position(|e| matches!(e.item, ShopItem::Spell(_)))
        .expect("stock has a spell");

    let mut player = Player::new(vec![spell("x"); SPELL_SLOTS]);
    player.gold = 500;
    let price = shop.stock[index].price;

    assert_eq!(shop.buy(index, &mut player), Err(BuyError::SlotsFull));
    assert_eq!(
        player.gold,
        500 - price,
        "the item was bought, so charge for it"
    );
    assert!(shop.stock[index].sold);
    assert_eq!(player.spells.len(), SPELL_SLOTS, "slots stay capped");
}

#[test]
fn services_apply_their_effect() {
    let mut player = Player::new(vec![]);
    player.gold = 1000;
    player.take_damage(10);
    let before_hp = player.hp;
    let before_max = player.max_hp;
    let before_mana = player.max_mana;

    let mut shop = new_shop();
    for i in 0..shop.stock.len() {
        let is_service = !matches!(shop.stock[i].item, ShopItem::Spell(_));
        if is_service {
            let _ = shop.buy(i, &mut player);
        }
    }

    assert!(player.hp > before_hp, "healing did not apply");
    assert!(player.max_hp > before_max, "max hp did not rise");
    assert!(player.max_mana > before_mana, "max mana did not rise");
}

#[test]
fn every_entry_is_priced_above_zero() {
    for entry in new_shop().stock {
        assert!(entry.price > 0, "{} is free", entry.item.name());
    }
}

#[test]
fn an_exhausted_spell_pool_still_yields_a_usable_shop() {
    let mut rng = StdRng::seed_from_u64(2);
    let shop = shop::generate(&shop_pool(), &shop_pool(), 1, &mut rng);
    assert!(
        !shop.stock.is_empty(),
        "services should still be for sale even with no spells left"
    );
}

#[test]
fn a_shop_prices_spells_by_cost_and_depth_then_lists_services() {
    let shop = shop::generate(&shop_pool(), &[], 4, &mut StdRng::seed_from_u64(5));
    assert_eq!(shop.stock.len(), 5);
    for entry in &shop.stock[..2] {
        assert!(matches!(entry.item, ShopItem::Spell(_)));
        assert_eq!(entry.price, 25 + 10 + 3 * 5);
    }
    assert!(matches!(shop.stock[2].item, ShopItem::Heal(8)));
    assert_eq!(shop.stock[2].price, 20);
    assert!(matches!(shop.stock[3].item, ShopItem::RaiseMaxHp(4)));
    assert_eq!(shop.stock[3].price, 45);
    assert!(matches!(shop.stock[4].item, ShopItem::RaiseMaxMana(1)));
    assert_eq!(shop.stock[4].price, 60);
    assert!(shop.spell_at(0).is_some());
    assert!(shop.spell_at(2).is_none());
    assert!(shop.spell_at(99).is_none());
}

#[test]
fn items_describe_themselves() {
    assert_eq!(ShopItem::Heal(8).name(), "Poultice (+8 HP)");
    assert_eq!(ShopItem::RaiseMaxHp(4).name(), "Vitality (+4 max HP)");
    assert_eq!(ShopItem::RaiseMaxMana(1).name(), "Attunement (+1 max MP)");
    assert_eq!(ShopItem::Heal(8).description(), "Restores health now");
    let mut s = spell("Ember");
    s.power = 3;
    assert_eq!(ShopItem::Spell(s.clone()).name(), "Ember");
    assert_eq!(ShopItem::Spell(s).description(), "Flame · pow 3 · 1 MP");
}

#[test]
fn buying_a_spell_with_a_free_slot_equips_it() {
    let mut shop = new_shop();
    let mut player = Player::new(vec![]);
    player.gold = 100;
    let bought = shop.spell_at(0).unwrap();
    assert_eq!(shop.buy(0, &mut player), Ok(None));
    assert_eq!(player.spells, vec![bought]);
    assert_eq!(shop.buy(99, &mut player), Err(BuyError::AlreadySold));
}

fn event_pool() -> Vec<Spell> {
    vec![
        Spell {
            name: "Ember".into(),
            mana_cost: 1,
            element: Element::Flame,
            power: 3,
            art: vec![],
            blurb: String::new(),
        },
        Spell {
            name: "Douse".into(),
            mana_cost: 1,
            element: Element::Water,
            power: 2,
            art: vec![],
            blurb: String::new(),
        },
    ]
}

#[test]
fn gaining_a_spell_never_duplicates_one_you_have() {
    let mut rng = StdRng::seed_from_u64(1);
    let mut player = Player::new(vec![event_pool()[0].clone()]);
    apply_outcome(&mut player, Outcome::GainSpell, &event_pool(), &mut rng);
    assert_eq!(player.spells.len(), 2);
    assert_ne!(player.spells[0].name, player.spells[1].name);
}

#[test]
fn gaining_a_spell_respects_the_slot_limit() {
    let mut rng = StdRng::seed_from_u64(1);
    let mut player = Player::new(vec![event_pool()[0].clone(); SPELL_SLOTS]);
    let msg = apply_outcome(&mut player, Outcome::GainSpell, &event_pool(), &mut rng);
    assert_eq!(player.spells.len(), SPELL_SLOTS);
    assert!(msg.contains("no free spell slots"));
}

#[test]
fn damage_cannot_underflow() {
    let mut rng = StdRng::seed_from_u64(1);
    let mut player = Player::new(vec![]);
    apply_outcome(&mut player, Outcome::Damage(9999), &event_pool(), &mut rng);
    assert_eq!(player.hp, 0);
}

#[test]
fn outcomes_describe_what_happened() {
    let mut rng = StdRng::seed_from_u64(1);
    let mut player = Player::new(event_pool());
    assert_eq!(apply_outcome(&mut player, Outcome::Nothing, &event_pool(), &mut rng), "You move on.");
    assert_eq!(apply_outcome(&mut player, Outcome::Damage(3), &event_pool(), &mut rng), "You take 3 damage.");
    assert_eq!(player.hp, 17);
    assert_eq!(apply_outcome(&mut player, Outcome::Heal(2), &event_pool(), &mut rng), "You recover 2 health.");
    assert_eq!(player.hp, 19);
    assert_eq!(
        apply_outcome(&mut player, Outcome::RaiseMaxHp(5), &event_pool(), &mut rng),
        "Your maximum health rises by 5."
    );
    assert_eq!((player.hp, player.max_hp), (24, 25));
    assert_eq!(
        apply_outcome(&mut player, Outcome::RaiseMaxMana(2), &event_pool(), &mut rng),
        "Your maximum mana rises by 2."
    );
    assert_eq!((player.mana, player.max_mana), (7, 7));
    assert_eq!(
        apply_outcome(&mut player, Outcome::GainSpell, &event_pool(), &mut rng),
        "There is nothing here you do not already know."
    );
    let mut fresh = Player::new(vec![]);
    let pool = vec![event_pool()[1].clone()];
    assert_eq!(apply_outcome(&mut fresh, Outcome::GainSpell, &pool, &mut rng), "You learn Douse.");
}
