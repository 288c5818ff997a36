//! Component spells -- the things that go into an incantation.

use vstd::prelude::*;

use crate::game::element::Element;

verus! {

#[derive(Debug, Clone, PartialEq, Eq)]
pub struct Spell {
    pub name: String,
    pub mana_cost: u8,
    pub element: Element,
    pub power: u16,
    /// ASCII art, one string per line.
    pub art: Vec<String>,
    /// One-line description shown on the spell card.
    pub blurb: String,
}

/// Index into the player's equipped spell slots.
pub type SlotIndex = usize;

/// How many spells the player can have equipped at once.
pub const SPELL_SLOTS: usize = 5;

/// A spell seen as plain values.
pub struct SpellView {
    pub name: Seq<char>,
    pub mana_cost: u8,
    pub element: Element,
    pub power: u16,
    pub art: Seq<Seq<char>>,
    pub blurb: Seq<char>,
}

impl View for Spell {
    type V = SpellView;

    open spec fn view(&self) -> SpellView {
        SpellView {
            name: self.name@,
            mana_cost: self.mana_cost,
            element: self.element,
            power: self.power,
            art: self.art.deep_view(),
            blurb: self.blurb@,
        }
    }
}

impl Spell {
    /// A field-by-field copy, equal to this one in every field.
    pub fn copy(&self) -> (r: Spell)
        ensures
            r@ == self@,
    {
        let art = self.art.clone();
        proof {
            assert(art.deep_view() =~= self.art.deep_view()) by {
                assert forall|i: int| 0 <= i < art@.len() implies art.deep_view()[i]
                    == self.art.deep_view()[i] by {
                    assert(cloned::<String>(self.art@[i], art@[i]));
                }
            }
        }
        Spell {
            name: self.name.clone(),
            mana_cost: self.mana_cost,
            element: self.element,
            power: self.power,
            art,
            blurb: self.blurb.clone(),
        }
    }
}

/// Whether some spell in `known` has the name `name`.
pub open spec fn knows(known: Seq<Spell>, name: Seq<char>) -> bool {
    exists|x: int| 0 <= x < known.len() && (#[trigger] known[x]).name@ == name
}

/// The indices, in order, of the first `n` spells of `pool` whose names are
/// not in `known`: what a player carrying `known` could still be offered.
pub open spec fn unknown_indices(pool: Seq<Spell>, known: Seq<Spell>, n: int) -> Seq<int>
    decreases n,
{
    if n <= 0 {
        Seq::empty()
    } else {
        let rest = unknown_indices(pool, known, n - 1);
        if knows(known, pool[n - 1].name@) {
            rest
        } else {
            rest.push(n - 1)
        }
    }
}

/// The indices of the spells of `pool` not in `known`.
pub open spec fn unknown_in(pool: Seq<Spell>, known: Seq<Spell>) -> Seq<int> {
    unknown_indices(pool, known, pool.len() as int)
}

/// The unknown indices below `n` lie below `n`, ascend, and are exactly
/// the unknown ones.
pub proof fn lemma_unknown_indices(pool: Seq<Spell>, known: Seq<Spell>, n: int)
    requires
        0 <= n <= pool.len(),
    ensures
        forall|i: int| 0 <= i < unknown_indices(pool, known, n).len() ==> 0 <= #[trigger] unknown_indices(pool, known, n)[i] < n,
        forall|a: int, b: int| 0 <= a < b < unknown_indices(pool, known, n).len() ==> #[trigger] unknown_indices(pool, known, n)[a] < #[trigger] unknown_indices(pool, known, n)[b],
        forall|k: int| 0 <= k < n ==> (unknown_indices(pool, known, n).contains(k) <==> !knows(known, (#[trigger] pool[k]).name@)),
        unknown_indices(pool, known, n).no_duplicates(),
    decreases n,
{
    if n > 0 {
        lemma_unknown_indices(pool, known, n - 1);
        let rest = unknown_indices(pool, known, n - 1);
        let cur = unknown_indices(pool, known, n);
        if !knows(known, pool[n - 1].name@) {
            assert(cur == rest.push(n - 1));
            assert forall|k: int| 0 <= k < n implies (cur.contains(k) <==> !knows(known, (#[trigger] pool[k]).name@)) by {
                if k < n - 1 {
                    if rest.contains(k) {
                        let c = choose|c: int| 0 <= c < rest.len() && rest[c] == k;
                        assert(cur[c] == k);
                    }
                    if cur.contains(k) {
                        let c = choose|c: int| 0 <= c < cur.len() && cur[c] == k;
                        assert(c < rest.len());
                        assert(rest[c] == k);
                    }
                } else {
                    assert(cur[rest.len() as int] == k);
                }
            }
        } else {
            assert forall|k: int| 0 <= k < n implies (cur.contains(k) <==> !knows(known, (#[trigger] pool[k]).name@)) by {
                if k == n - 1 && cur.contains(k) {
                    let c = choose|c: int| 0 <= c < cur.len() && cur[c] == k;
                    assert(cur[c] < n - 1);
                }
            }
        }
    }
}

/// Whether some spell of `known` is named like `s`.
fn is_known(known: &[Spell], s: &Spell) -> (r: bool)
    ensures
        r == knows(known@, s.name@),
{
    let n = known.len();
    let mut x: usize = 0;
    while x < n
        invariant
            n == known@.len(),
            x <= n,
            forall|y: int| 0 <= y < x ==> (#[trigger] known@[y]).name@ != s.name@,
        decreases n - x,
    {
        if known[x].name == s.name {
            return true;
        }
        x = x + 1;
    }
    false
}

/// The indices of the spells of `pool` whose names are not among `known`'s,
/// in pool order.
pub(crate) fn unknown_spells(pool: &[Spell], known: &[Spell]) -> (r: Vec<usize>)
    ensures
        r@.len() == unknown_in(pool@, known@).len(),
        forall|i: int| 0 <= i < r@.len() ==> (#[trigger] r@[i]) as int == unknown_in(pool@, known@)[i],
{
    let n = pool.len();
    let mut r: Vec<usize> = Vec::new();
    let mut k: usize = 0;
    while k < n
        invariant
            n == pool@.len(),
            k <= n,
            r@.len() == unknown_indices(pool@, known@, k as int).len(),
            forall|i: int| 0 <= i < r@.len() ==> (#[trigger] r@[i]) as int == unknown_indices(pool@, known@, k as int)[i],
        decreases n - k,
    {
        if !is_known(known, &pool[k]) {
            r.push(k);
        }
        proof {
            let rest = unknown_indices(pool@, known@, k as int);
            let cur = unknown_indices(pool@, known@, k + 1);
            if !knows(known@, pool@[k as int].name@) {
                assert(cur == rest.push(k as int));
            } else {
                assert(cur == rest);
            }
        }
        k = k + 1;
    }
    r
}

} // verus!
