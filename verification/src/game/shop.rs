//! The shop: somewhere for gold to go.
//!
//! Stock is generated per visit from the spell pool plus a few services, so
//! adding a spell to the content makes it purchasable with no extra code.

use rand::rngs::StdRng;
use vstd::prelude::*;

use crate::game::entity::Player;
use crate::game::reward::{draw_unknown, drawn_from};
use crate::game::spell::{SPELL_SLOTS, Spell, knows, lemma_unknown_indices, unknown_in};
use crate::text::{decimal, decimal_view};

verus! {

#[derive(Debug, Clone)]
pub enum ShopItem {
    Spell(Spell),
    Heal(u16),
    RaiseMaxHp(u16),
    RaiseMaxMana(u8),
}

impl ShopItem {
    pub open spec fn name_view(&self) -> Seq<char> {
        match self {
            ShopItem::Spell(s) => s.name@,
            ShopItem::Heal(n) => "Poultice (+"@ + decimal_view(*n as nat) + " HP)"@,
            ShopItem::RaiseMaxHp(n) => "Vitality (+"@ + decimal_view(*n as nat) + " max HP)"@,
            ShopItem::RaiseMaxMana(n) => "Attunement (+"@ + decimal_view(*n as nat) + " max MP)"@,
        }
    }

    pub fn name(&self) -> (r: String)
        ensures
            r@ == self.name_view(),
    {
        match self {
            ShopItem::Spell(s) => s.name.clone(),
            ShopItem::Heal(n) => String::from_str("Poultice (+").concat(decimal(*n as u64).as_str()).concat(" HP)"),
            ShopItem::RaiseMaxHp(n) => String::from_str("Vitality (+").concat(decimal(*n as u64).as_str()).concat(
                " max HP)",
            ),
            ShopItem::RaiseMaxMana(n) => String::from_str("Attunement (+").concat(decimal(*n as u64).as_str()).concat(
                " max MP)",
            ),
        }
    }

    pub open spec fn description_view(&self) -> Seq<char> {
        match self {
            ShopItem::Spell(s) => s.element.name_view() + " · pow "@ + decimal_view(s.power as nat) + " · "@
                + decimal_view(s.mana_cost as nat) + " MP"@,
            ShopItem::Heal(_) => "Restores health now"@,
            ShopItem::RaiseMaxHp(_) => "Permanent for this run"@,
            ShopItem::RaiseMaxMana(_) => "More room to combine"@,
        }
    }

    pub fn description(&self) -> (r: String)
        ensures
            r@ == self.description_view(),
    {
        match self {
            ShopItem::Spell(s) => String::from_str(s.element.name()).concat(" · pow ").concat(
                decimal(s.power as u64).as_str(),
            ).concat(" · ").concat(decimal(s.mana_cost as u64).as_str()).concat(" MP"),
            ShopItem::Heal(_) => String::from_str("Restores health now"),
            ShopItem::RaiseMaxHp(_) => String::from_str("Permanent for this run"),
            ShopItem::RaiseMaxMana(_) => String::from_str("More room to combine"),
        }
    }
}

#[derive(Debug, Clone)]
pub struct StockItem {
    pub item: ShopItem,
    pub price: u32,
    pub sold: bool,
}

#[derive(Debug, Clone)]
pub struct Shop {
    pub stock: Vec<StockItem>,
}

/// Why a purchase could not go through.
#[derive(Debug, Clone, Copy, PartialEq, Eq, Structural)]
pub enum BuyError {
    AlreadySold,
    NotEnoughGold,
    /// Bought, but every spell slot is full -- the caller must ask the player
    /// which spell it replaces.
    SlotsFull,
}

/// The price of a spell at `depth`: a base, ten per mana point, and a
/// markup that grows every other row.
pub open spec fn spell_price(spell: Spell, depth: usize) -> int {
    25 + spell.mana_cost * 10 + (1 + (depth as u32) / 2) * 5
}

/// The services every shop sells, after its spells.
pub open spec fn services() -> Seq<StockItem> {
    seq![
        StockItem { item: ShopItem::Heal(8), price: 20, sold: false },
        StockItem { item: ShopItem::RaiseMaxHp(4), price: 45, sold: false },
        StockItem { item: ShopItem::RaiseMaxMana(1), price: 60, sold: false },
    ]
}

/// `stock` is up to two spells unknown to `known` drawn from `pool`, each
/// priced for `depth`, followed by the services.
pub open spec fn stocked(pool: Seq<Spell>, known: Seq<Spell>, depth: usize, picks: Seq<int>, spells: Seq<Spell>, stock: Seq<StockItem>) -> bool {
    &&& drawn_from(pool, known, 2, picks, spells)
    &&& stock.len() == spells.len() + 3
    &&& forall|i: int|
        0 <= i < spells.len() ==> #[trigger] stock[i] == (StockItem {
            item: ShopItem::Spell(spells[i]),
            price: spell_price(spells[i], depth) as u32,
            sold: false,
        })
    &&& stock.subrange(spells.len() as int, stock.len() as int) == services()
}

/// Every spell of `pool` that `known` leaves to offer has a price at
/// `depth` that fits a `u32`.
pub open spec fn prices_fit(pool: Seq<Spell>, known: Seq<Spell>, depth: usize) -> bool {
    forall|j: int| 0 <= j < pool.len() && !knows(known, pool[j].name@) ==> spell_price(#[trigger] pool[j], depth) <= u32::MAX
}

/// Build the stock for one visit.
pub fn generate(pool: &[Spell], known: &[Spell], depth: usize, rng: &mut StdRng) -> (shop: Shop)
    requires
        prices_fit(pool@, known@, depth),
    ensures
        exists|picks: Seq<int>, spells: Seq<Spell>| #[trigger] stocked(pool@, known@, depth, picks, spells, shop.stock@),
{
    let markup: u32 = 1 + (depth as u32) / 2;
    let mut spells = draw_unknown(pool, known, 2, rng);
    let ghost drawn = spells@;
    proof {
        let picks = choose|picks: Seq<int>| #[trigger] drawn_from(pool@, known@, 2, picks, drawn);
        lemma_drawn_prices_fit(pool@, known@, depth, picks, drawn);
    }
    let mut stock: Vec<StockItem> = Vec::new();
    let n = spells.len();
    let mut i: usize = 0;
    while i < n
        invariant
            n == drawn.len(),
            i <= n,
            markup == 1 + (depth as u32) / 2,
            forall|k: int| 0 <= k < n ==> spell_price(#[trigger] drawn[k], depth) <= u32::MAX,
            spells@ == drawn.subrange(i as int, n as int),
            stock@.len() == i,
            forall|k: int|
                0 <= k < i ==> #[trigger] stock@[k] == (StockItem {
                    item: ShopItem::Spell(drawn[k]),
                    price: spell_price(drawn[k], depth) as u32,
                    sold: false,
                }),
        decreases n - i,
    {
        let spell = spells.remove(0);
        proof {
            assert(spells@ =~= drawn.subrange(i + 1, n as int));
            assert(spell == drawn[i as int]);
            assert(spell_price(drawn[i as int], depth) <= u32::MAX);
        }
        let price = 25 + (spell.mana_cost as u32) * 10 + markup * 5;
        stock.push(StockItem { price, item: ShopItem::Spell(spell), sold: false });
        i = i + 1;
    }
    let ghost spell_part = stock@;
    stock.push(StockItem { item: ShopItem::Heal(8), price: 20, sold: false });
    stock.push(StockItem { item: ShopItem::RaiseMaxHp(4), price: 45, sold: false });
    stock.push(StockItem { item: ShopItem::RaiseMaxMana(1), price: 60, sold: false });
    let shop = Shop { stock };
    proof {
        let picks = choose|picks: Seq<int>| #[trigger] drawn_from(pool@, known@, 2, picks, drawn);
        let st = shop.stock@;
        assert(st.subrange(n as int, st.len() as int) =~= services());
        assert forall|k: int| 0 <= k < drawn.len() implies #[trigger] st[k] == (StockItem {
            item: ShopItem::Spell(drawn[k]),
            price: spell_price(drawn[k], depth) as u32,
            sold: false,
        }) by {
            assert(st[k] == spell_part[k]);
        }
        assert(stocked(pool@, known@, depth, picks, drawn, st));
    }
    shop
}

/// Spells drawn from what `known` leaves have prices that fit, where every
/// such spell's does.
proof fn lemma_drawn_prices_fit(pool: Seq<Spell>, known: Seq<Spell>, depth: usize, picks: Seq<int>, spells: Seq<Spell>)
    requires
        prices_fit(pool, known, depth),
        drawn_from(pool, known, 2, picks, spells),
    ensures
        forall|k: int| 0 <= k < spells.len() ==> spell_price(#[trigger] spells[k], depth) <= u32::MAX,
{
    lemma_unknown_indices(pool, known, pool.len() as int);
    assert forall|k: int| 0 <= k < spells.len() implies spell_price(#[trigger] spells[k], depth) <= u32::MAX by {
        let j = picks[k];
        assert(unknown_in(pool, known).contains(j));
        let c = choose|c: int| 0 <= c < unknown_in(pool, known).len() && unknown_in(pool, known)[c] == j;
        assert(spells[k]@ == pool[j]@);
        assert(spell_price(pool[j], depth) <= u32::MAX);
    }
}

/// What `player` becomes once the service or spell `item`, bought for
/// `price`, takes effect, when it can be afforded; `slots_full` when a spell
/// found no free slot.
pub open spec fn bought(p0: Player, p1: Player, item: ShopItem, price: u32, slots_full: bool) -> bool {
    let paid = (p0.gold - price) as u32;
    match item {
        ShopItem::Spell(s) => if slots_full {
            p1 == (Player { gold: paid, ..p0 })
        } else {
            &&& p1 == (Player { gold: paid, spells: p1.spells, ..p0 })
            &&& p1.spells@.len() == p0.spells@.len() + 1
            &&& forall|i: int| 0 <= i < p0.spells@.len() ==> #[trigger] p1.spells@[i] == p0.spells@[i]
            &&& p1.spells@[p0.spells@.len() as int]@ == s@
        },
        ShopItem::Heal(n) => p1 == (Player {
            gold: paid,
            hp: if p0.hp + n < p0.max_hp {
                (p0.hp + n) as u16
            } else {
                p0.max_hp
            },
            ..p0
        }),
        ShopItem::RaiseMaxHp(n) => p1 == (Player { gold: paid, max_hp: (p0.max_hp + n) as u16, hp: (p0.hp + n) as u16, ..p0 }),
        ShopItem::RaiseMaxMana(n) => {
            let m = if p0.max_mana + n > 255 {
                255u8
            } else {
                (p0.max_mana + n) as u8
            };
            p1 == (Player { gold: paid, max_mana: m, mana: m, ..p0 })
        },
    }
}

/// Whether buying `item` would overflow the player's numbers.
pub open spec fn affordable_effect(p: Player, item: ShopItem) -> bool {
    match item {
        ShopItem::Heal(n) => p.hp + n <= u16::MAX,
        ShopItem::RaiseMaxHp(n) => p.max_hp + n <= u16::MAX && p.hp + n <= u16::MAX,
        _ => true,
    }
}

impl Shop {
    /// Attempt to buy `index`.
    ///
    /// Gold is only ever deducted when the purchase actually lands. A spell
    /// bought with no free slot returns [`BuyError::SlotsFull`] *after*
    /// charging, because the caller then runs the replacement flow -- the item
    /// is genuinely bought, it just needs a home.
    pub fn buy(&mut self, index: usize, player: &mut Player) -> (r: Result<Option<Spell>, BuyError>)
        requires
            index < old(self).stock@.len() && !old(self).stock@[index as int].sold && old(player).gold
                >= old(self).stock@[index as int].price ==> affordable_effect(*old(player), old(self).stock@[index as int].item),
        ensures
            index >= old(self).stock@.len() || old(self).stock@[index as int].sold ==> r == Err::<Option<Spell>, BuyError>(BuyError::AlreadySold)
                && *final(self) == *old(self) && *final(player) == *old(player),
            index < old(self).stock@.len() && !old(self).stock@[index as int].sold && old(player).gold < old(self).stock@[index as int].price
                ==> r == Err::<Option<Spell>, BuyError>(BuyError::NotEnoughGold) && *final(self) == *old(self) && *final(player) == *old(player),
            index < old(self).stock@.len() && !old(self).stock@[index as int].sold && old(player).gold >= old(self).stock@[index as int].price ==> {
                let entry = old(self).stock@[index as int];
                let full = entry.item is Spell && old(player).spells@.len() >= SPELL_SLOTS;
                &&& final(self).stock@ == old(self).stock@.update(index as int, StockItem { sold: true, ..entry })
                &&& bought(*old(player), *final(player), entry.item, entry.price, full)
                &&& r == if full {
                    Err::<Option<Spell>, BuyError>(BuyError::SlotsFull)
                } else {
                    Ok::<Option<Spell>, BuyError>(None)
                }
            },
    {
        if index >= self.stock.len() || self.stock[index].sold {
            return Err(BuyError::AlreadySold);
        }
        if player.gold < self.stock[index].price {
            return Err(BuyError::NotEnoughGold);
        }
        let price = self.stock[index].price;
        let item = match &self.stock[index].item {
            ShopItem::Spell(s) => ShopItem::Spell(s.copy()),
            ShopItem::Heal(n) => ShopItem::Heal(*n),
            ShopItem::RaiseMaxHp(n) => ShopItem::RaiseMaxHp(*n),
            ShopItem::RaiseMaxMana(n) => ShopItem::RaiseMaxMana(*n),
        };
        match item {
            ShopItem::Spell(spell) => {
                if player.spells.len() >= SPELL_SLOTS {
                    player.gold = player.gold - price;
                    self.stock[index].sold = true;
                    return Err(BuyError::SlotsFull);
                }
                player.gold = player.gold - price;
                self.stock[index].sold = true;
                player.spells.push(spell);
                Ok(None)
            },
            ShopItem::Heal(n) => {
                player.gold = player.gold - price;
                self.stock[index].sold = true;
                player.heal(n);
                Ok(None)
            },
            ShopItem::RaiseMaxHp(n) => {
                player.gold = player.gold - price;
                self.stock[index].sold = true;
                player.max_hp = player.max_hp + n;
                player.hp = player.hp + n;
                Ok(None)
            },
            ShopItem::RaiseMaxMana(n) => {
                player.gold = player.gold - price;
                self.stock[index].sold = true;
                player.max_mana = player.max_mana.saturating_add(n);
                player.refill_mana();
                Ok(None)
            },
        }
    }

    /// The spell an entry holds, if it is one.
    pub fn spell_at(&self, index: usize) -> (r: Option<Spell>)
        ensures
            index < self.stock@.len() && self.stock@[index as int].item is Spell ==> r is Some
                && r->0@ == self.stock@[index as int].item->Spell_0@,
            !(index < self.stock@.len() && self.stock@[index as int].item is Spell) ==> r is None,
    {
        if index >= self.stock.len() {
            return None;
        }
        match &self.stock[index].item {
            ShopItem::Spell(s) => Some(s.copy()),
            _ => None,
        }
    }
}

/// Every entry of a generated stock has a price above zero.
pub proof fn lemma_every_entry_priced_above_zero(
    pool: Seq<Spell>,
    known: Seq<Spell>,
    depth: usize,
    picks: Seq<int>,
    spells: Seq<Spell>,
    stock: Seq<StockItem>,
    i: int,
)
    requires
        stocked(pool, known, depth, picks, spells, stock),
        prices_fit(pool, known, depth),
        0 <= i < stock.len(),
    ensures
        stock[i].price > 0,
        !stock[i].sold,
{
    lemma_drawn_prices_fit(pool, known, depth, picks, spells);
    if i < spells.len() {
        assert(stock[i] == (StockItem {
            item: ShopItem::Spell(spells[i]),
            price: spell_price(spells[i], depth) as u32,
            sold: false,
        }));
        assert(spell_price(spells[i], depth) <= u32::MAX);
    } else {
        assert(stock[i] == stock.subrange(spells.len() as int, stock.len() as int)[i - spells.len()]);
    }
}

/// A spell the shop offers at depth `d` costs 25 gold, 10 more per mana
/// point, and 5 more per step of markup (one, plus one every other row);
/// so at one depth a spell costing one more mana point costs 10 gold more.
pub proof fn lemma_spell_prices(
    pool: Seq<Spell>,
    known: Seq<Spell>,
    depth: usize,
    picks: Seq<int>,
    spells: Seq<Spell>,
    stock: Seq<StockItem>,
)
    requires
        stocked(pool, known, depth, picks, spells, stock),
        prices_fit(pool, known, depth),
    ensures
        forall|i: int|
            0 <= i < spells.len() ==> (#[trigger] stock[i]).price == 25 + 10 * spells[i].mana_cost + 5 * (1 + (depth as u32)
                / 2),
        forall|i: int, j: int|
            0 <= i < spells.len() && 0 <= j < spells.len() ==> (#[trigger] stock[i]).price - (#[trigger] stock[j]).price
                == 10 * (spells[i].mana_cost - spells[j].mana_cost),
{
    lemma_drawn_prices_fit(pool, known, depth, picks, spells);
    assert forall|i: int| 0 <= i < spells.len() implies (#[trigger] stock[i]).price == 25 + 10 * spells[i].mana_cost + 5 * (1
        + (depth as u32) / 2) by {
        assert(spell_price(spells[i], depth) <= u32::MAX);
    }
    assert forall|i: int, j: int| 0 <= i < spells.len() && 0 <= j < spells.len() implies (#[trigger] stock[i]).price
        - (#[trigger] stock[j]).price == 10 * (spells[i].mana_cost - spells[j].mana_cost) by {
        assert(spell_price(spells[i], depth) <= u32::MAX);
        assert(spell_price(spells[j], depth) <= u32::MAX);
    }
}

/// An entry once bought is sold: buying it again is refused as already
/// sold, and changes nothing.
pub proof fn lemma_cannot_buy_twice(before: Seq<StockItem>, after: Seq<StockItem>, index: int)
    requires
        0 <= index < before.len(),
        after == before.update(index, StockItem { sold: true, ..before[index] }),
    ensures
        after[index].sold,
        after.len() == before.len(),
        forall|j: int| 0 <= j < before.len() && j != index ==> #[trigger] after[j] == before[j],
{
}

} // verus!
