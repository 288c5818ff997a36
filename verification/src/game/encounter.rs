//! Encounter generation.
//!
//! Fights are assembled from a weighted pool against a difficulty budget, so
//! adding an enemy is a single data entry -- it enters the pool and starts
//! appearing at whatever depth its weight implies.

use rand::rngs::StdRng;
use vstd::prelude::*;

use crate::game::chance::choose_one;
use crate::game::entity::{Enemy, EnemyKind};

verus! {

/// Never put more than this many enemies on screen at once -- the fight panel
/// stops being readable beyond it.
pub const MAX_ENEMIES: usize = 3;

/// Total difficulty of the kinds picked, by index into the pool.
pub open spec fn total_difficulty(pool: Seq<EnemyKind>, picks: Seq<int>) -> int
    decreases picks.len(),
{
    if picks.len() == 0 {
        0
    } else {
        total_difficulty(pool, picks.drop_last()) + pool[picks.last()].difficulty
    }
}

/// `k` is the first of the least difficult kinds in the pool.
pub open spec fn is_first_weakest(pool: Seq<EnemyKind>, k: int) -> bool {
    &&& 0 <= k < pool.len()
    &&& forall|i: int| 0 <= i < pool.len() ==> pool[k].difficulty <= (#[trigger] pool[i]).difficulty
    &&& forall|i: int| 0 <= i < k ==> (#[trigger] pool[i]).difficulty > pool[k].difficulty
}

/// No kind in the pool costs `limit` or less.
pub open spec fn none_affordable(pool: Seq<EnemyKind>, limit: int) -> bool {
    forall|k: int| 0 <= k < pool.len() ==> (#[trigger] pool[k]).difficulty > limit
}

/// `es` is a fight drawn from `pool` against `budget`, the enemies being
/// fresh instances of the kinds at `picks`: kinds are drawn while one is
/// affordable and fewer than `MAX_ENEMIES` are drawn, and a budget too small
/// for anything buys the first of the weakest kinds instead.
pub open spec fn drawn(pool: Seq<EnemyKind>, budget: u8, picks: Seq<int>, es: Seq<Enemy>) -> bool {
    &&& picks.len() == es.len()
    &&& forall|i: int| 0 <= i < picks.len() ==> 0 <= #[trigger] picks[i] < pool.len()
    &&& forall|i: int| 0 <= i < es.len() ==> (#[trigger] es[i]).fresh_from(pool[picks[i]])
    &&& if none_affordable(pool, budget as int) {
        picks.len() == 1 && is_first_weakest(pool, picks[0])
    } else {
        &&& 1 <= picks.len() <= MAX_ENEMIES
        &&& total_difficulty(pool, picks) <= budget
        &&& (picks.len() < MAX_ENEMIES ==> none_affordable(pool, budget - total_difficulty(pool, picks)))
    }
}

/// The indices of the kinds that cost `limit` or less, in pool order.
fn affordable(pool: &[EnemyKind], limit: u16) -> (r: Vec<usize>)
    ensures
        forall|i: int| 0 <= i < r@.len() ==> (#[trigger] r@[i]) < pool@.len() && pool@[r@[i] as int].difficulty <= limit,
        forall|k: int| 0 <= k < pool@.len() && (#[trigger] pool@[k]).difficulty <= limit ==> r@.contains(k as usize),
        forall|a: int, b: int| 0 <= a < b < r@.len() ==> #[trigger] r@[a] < #[trigger] r@[b],
{
    let n = pool.len();
    let mut r: Vec<usize> = Vec::new();
    let mut k: usize = 0;
    while k < n
        invariant
            n == pool@.len(),
            k <= n,
            forall|i: int| 0 <= i < r@.len() ==> (#[trigger] r@[i]) < k && pool@[r@[i] as int].difficulty <= limit,
            forall|x: int| 0 <= x < k && (#[trigger] pool@[x]).difficulty <= limit ==> r@.contains(x as usize),
            forall|a: int, b: int| 0 <= a < b < r@.len() ==> #[trigger] r@[a] < #[trigger] r@[b],
        decreases n - k,
    {
        if (pool[k].difficulty as u16) <= limit {
            let ghost r0 = r@;
            r.push(k);
            proof {
                assert forall|x: int| 0 <= x < k + 1 && (#[trigger] pool@[x]).difficulty <= limit implies r@.contains(x as usize) by {
                    if x < k {
                        let c = choose|c: int| 0 <= c < r0.len() && r0[c] == x as usize;
                        assert(r@[c] == x as usize);
                    } else {
                        assert(r@[r0.len() as int] == k);
                    }
                }
            }
        }
        k = k + 1;
    }
    r
}

/// The first of the least difficult kinds of a non-empty pool.
fn first_weakest(pool: &[EnemyKind]) -> (k: usize)
    requires
        pool@.len() > 0,
    ensures
        is_first_weakest(pool@, k as int),
{
    let n = pool.len();
    let mut best: usize = 0;
    let mut i: usize = 1;
    while i < n
        invariant
            n == pool@.len(),
            1 <= i <= n,
            best < i,
            forall|x: int| 0 <= x < i ==> pool@[best as int].difficulty <= (#[trigger] pool@[x]).difficulty,
            forall|x: int| 0 <= x < best ==> (#[trigger] pool@[x]).difficulty > pool@[best as int].difficulty,
        decreases n - i,
    {
        if pool[i].difficulty < pool[best].difficulty {
            best = i;
        }
        i = i + 1;
    }
    best
}

/// Draw enemies from `pool` until `budget` is spent.
///
/// Always returns at least one enemy, even if the budget is too small to
/// afford anything, so a fight node can never be empty -- unless the pool
/// itself is empty, which yields an empty fight rather than a panic.
pub fn generate(pool: &[EnemyKind], budget: u8, rng: &mut StdRng) -> (es: Vec<Enemy>)
    ensures
        pool@.len() == 0 ==> es@.len() == 0,
        pool@.len() > 0 ==> 1 <= es@.len() <= MAX_ENEMIES,
        pool@.len() > 0 ==> exists|picks: Seq<int>| #[trigger] drawn(pool@, budget, picks, es@),
{
    if pool.len() == 0 {
        return Vec::new();
    }
    let mut remaining: u16 = budget as u16;
    let mut enemies: Vec<Enemy> = Vec::new();
    let ghost mut picks: Seq<int> = Seq::empty();
    let mut stopped = false;
    while enemies.len() < MAX_ENEMIES && !stopped
        invariant
            pool@.len() > 0,
            enemies@.len() <= MAX_ENEMIES,
            picks.len() == enemies@.len(),
            forall|i: int| 0 <= i < picks.len() ==> 0 <= #[trigger] picks[i] < pool@.len(),
            forall|i: int| 0 <= i < enemies@.len() ==> (#[trigger] enemies@[i]).fresh_from(pool@[picks[i]]),
            total_difficulty(pool@, picks) + remaining == budget,
            stopped ==> none_affordable(pool@, remaining as int),
        decreases MAX_ENEMIES - enemies@.len() + if stopped { 0int } else { 1int },
    {
        let options = affordable(pool, remaining);
        match choose_one(rng, &options) {
            None => {
                proof {
                    assert forall|k: int| 0 <= k < pool@.len() implies (#[trigger] pool@[k]).difficulty > remaining by {
                        if pool@[k].difficulty <= remaining {
                            assert(options@.contains(k as usize));
                        }
                    }
                }
                stopped = true;
            },
            Some(k) => {
                let ghost c = choose|c: int| 0 <= c < options@.len() && options@[c] == k;
                proof {
                    assert(k < pool@.len() && pool@[k as int].difficulty <= remaining);
                }
                remaining = remaining - pool[k].difficulty as u16;
                let e = Enemy::from_kind(&pool[k]);
                let ghost p0 = picks;
                enemies.push(e);
                proof {
                    picks = p0.push(k as int);
                    assert(picks.drop_last() =~= p0);
                    assert forall|i: int| 0 <= i < enemies@.len() implies (#[trigger] enemies@[i]).fresh_from(pool@[picks[i]]) by {
                        if i < p0.len() {
                            assert(picks[i] == p0[i]);
                        }
                    }
                }
            },
        }
    }
    if enemies.len() == 0 {
        // Budget too small for anything in the pool: use the cheapest enemy
        // rather than returning a fight with nothing in it.
        let weakest = first_weakest(pool);
        enemies.push(Enemy::from_kind(&pool[weakest]));
        proof {
            assert(none_affordable(pool@, budget as int));
            picks = seq![weakest as int];
            assert(drawn(pool@, budget, picks, enemies@));
        }
    } else {
        proof {
            if none_affordable(pool@, budget as int) {
                assert(pool@[picks[0]].difficulty <= budget) by {
                    assert(total_difficulty(pool@, picks) >= pool@[picks[0]].difficulty) by {
                        lemma_total_at_least_one(pool@, picks);
                    }
                }
            }
            assert(drawn(pool@, budget, picks, enemies@));
        }
    }
    enemies
}

/// The total of a non-empty pick list is at least its first pick's
/// difficulty.
proof fn lemma_total_at_least_one(pool: Seq<EnemyKind>, picks: Seq<int>)
    requires
        picks.len() >= 1,
    ensures
        total_difficulty(pool, picks) >= pool[picks[0]].difficulty,
    decreases picks.len(),
{
    if picks.len() > 1 {
        lemma_total_at_least_one(pool, picks.drop_last());
        assert(picks.drop_last()[0] == picks[0]);
        assert(total_difficulty(pool, picks) == total_difficulty(pool, picks.drop_last()) + pool[picks.last()].difficulty);
        assert(pool[picks.last()].difficulty >= 0);
    } else {
        assert(picks.drop_last().len() == 0);
        assert(total_difficulty(pool, picks.drop_last()) == 0);
        assert(picks.last() == picks[0]);
    }
}

} // verus!
