//! Post-fight rewards: gold, plus a choice of one new spell from three.
//!
//! Offers exclude spells the player already carries, so a reward is never a
//! duplicate of something in hand.

use rand::rngs::StdRng;
use vstd::prelude::*;

use crate::game::chance::sample_some;
use crate::game::spell::{Spell, lemma_unknown_indices, unknown_in, unknown_spells};

verus! {

/// How many spells are offered after a fight.
pub const OFFER_COUNT: usize = 3;

#[derive(Debug, Clone)]
pub struct Reward {
    pub gold: u32,
    /// Up to [`OFFER_COUNT`] spells. Can be shorter, or empty, once the pool
    /// is exhausted.
    pub offers: Vec<Spell>,
}

/// `offers` are copies of the spells of `pool` at `picks`: distinct
/// positions, each holding a spell whose name is not in `known`, as many as
/// `count` allows and the unknown spells run to.
pub open spec fn drawn_from(pool: Seq<Spell>, known: Seq<Spell>, count: nat, picks: Seq<int>, offers: Seq<Spell>) -> bool {
    &&& picks.len() == offers.len()
    &&& offers.len() == (if count < unknown_in(pool, known).len() {
        count
    } else {
        unknown_in(pool, known).len()
    })
    &&& picks.no_duplicates()
    &&& forall|i: int| 0 <= i < picks.len() ==> unknown_in(pool, known).contains(#[trigger] picks[i])
    &&& forall|i: int| 0 <= i < offers.len() ==> (#[trigger] offers[i])@ == pool[picks[i]]@
}

/// The gold a fight at `depth` pays.
pub open spec fn gold_for(depth: usize) -> int {
    10 + (depth as u32) * 5
}

/// Draw `count` spells of `pool` unknown to `known`, at distinct positions.
pub(crate) fn draw_unknown(pool: &[Spell], known: &[Spell], count: usize, rng: &mut StdRng) -> (offers: Vec<Spell>)
    ensures
        exists|picks: Seq<int>| #[trigger] drawn_from(pool@, known@, count as nat, picks, offers@),
{
    let candidates = unknown_spells(pool, known);
    let ghost u = unknown_in(pool@, known@);
    proof {
        lemma_unknown_indices(pool@, known@, pool@.len() as int);
        assert(candidates@.no_duplicates()) by {
            assert forall|a: int, b: int| 0 <= a < candidates@.len() && 0 <= b < candidates@.len() && a != b implies candidates@[a] != candidates@[b] by {
                assert(candidates@[a] as int == u[a]);
                assert(candidates@[b] as int == u[b]);
                if a < b {
                    assert(u[a] < u[b]);
                } else {
                    assert(u[b] < u[a]);
                }
            }
        }
    }
    let chosen = sample_some(rng, &candidates, count);
    let n = chosen.len();
    let mut offers: Vec<Spell> = Vec::new();
    let mut i: usize = 0;
    while i < n
        invariant
            n == chosen@.len(),
            i <= n,
            offers@.len() == i,
            u == unknown_in(pool@, known@),
            candidates@.len() == u.len(),
            forall|x: int| 0 <= x < candidates@.len() ==> (#[trigger] candidates@[x]) as int == u[x],
            forall|x: int| 0 <= x < u.len() ==> 0 <= #[trigger] u[x] < pool@.len(),
            forall|x: int| 0 <= x < chosen@.len() ==> candidates@.contains(#[trigger] chosen@[x]),
            forall|x: int| 0 <= x < i ==> (#[trigger] offers@[x])@ == pool@[chosen@[x] as int]@,
        decreases n - i,
    {
        let k = chosen[i];
        proof {
            let c = choose|c: int| 0 <= c < candidates@.len() && candidates@[c] == k;
            assert(u[c] == k as int);
        }
        offers.push(pool[k].copy());
        i = i + 1;
    }
    proof {
        let picks = chosen@.map_values(|x: usize| x as int);
        assert(picks.no_duplicates()) by {
            assert forall|a: int, b: int| 0 <= a < picks.len() && 0 <= b < picks.len() && a != b implies picks[a] != picks[b] by {
                assert(chosen@[a] != chosen@[b]);
            }
        }
        assert forall|x: int| 0 <= x < picks.len() implies u.contains(#[trigger] picks[x]) by {
            let c = choose|c: int| 0 <= c < candidates@.len() && candidates@[c] == chosen@[x];
            assert(u[c] == picks[x]);
        }
        assert(drawn_from(pool@, known@, count as nat, picks, offers@));
    }
    offers
}

/// Build a reward for clearing a fight at `depth`: gold that grows with
/// depth, and up to [`OFFER_COUNT`] spells the player does not carry.
pub fn generate(pool: &[Spell], known: &[Spell], depth: usize, rng: &mut StdRng) -> (r: Reward)
    requires
        gold_for(depth) <= u32::MAX,
    ensures
        r.gold == gold_for(depth),
        exists|picks: Seq<int>| #[trigger] drawn_from(pool@, known@, OFFER_COUNT as nat, picks, r.offers@),
{
    let offers = draw_unknown(pool, known, OFFER_COUNT, rng);
    let r = Reward { gold: 10 + (depth as u32) * 5, offers };
    proof {
        let picks = choose|picks: Seq<int>| #[trigger] drawn_from(pool@, known@, OFFER_COUNT as nat, picks, offers@);
        assert(drawn_from(pool@, known@, OFFER_COUNT as nat, picks, r.offers@));
    }
    r
}

/// Deeper fights pay better: the gold grows with the depth (for depths a
/// `u32` holds, which the gold is counted in).
pub proof fn lemma_deeper_fights_pay_better(shallow: usize, deep: usize)
    requires
        shallow < deep <= u32::MAX,
        gold_for(deep) <= u32::MAX,
    ensures
        gold_for(shallow) < gold_for(deep),
        gold_for(shallow) > 0,
{
    assert(deep as u32 == deep);
    assert(shallow as u32 == shallow);
}

} // verus!
