//! Incantation resolution.
//!
//! The player builds a bag of component spells during their turn and this
//! turns that bag into a single spell. Resolution is a function of the
//! unordered multiset of components: the same components always produce the
//! same spell, whatever order they were added in
//! (`lemma_resolution_order_independent`).

use vstd::prelude::*;

use crate::game::combat::rules::{Modifier, Rules, Targeting};
use crate::game::element::{ELEMENT_COUNT, Element};
use crate::game::spell::Spell;
use crate::game::status::{STATUS_COUNT, Status};

verus! {

broadcast use vstd::seq_lib::group_to_multiset_ensures;

/// How many components of one element went in, and their summed power.
#[derive(Debug, Clone, Copy, Default, PartialEq, Eq, Structural)]
pub struct Tally {
    pub count: u8,
    pub power: u16,
}

/// `x`, but no more than `m`.
pub open spec fn cap(x: nat, m: nat) -> nat {
    if x <= m {
        x
    } else {
        m
    }
}

/// The sum of `f` over a list of spells.
pub open spec fn sum_by(s: Seq<Spell>, f: spec_fn(Spell) -> nat) -> nat
    decreases s.len(),
{
    if s.len() == 0 {
        0
    } else {
        sum_by(s.drop_last(), f) + f(s.last())
    }
}

/// How many of the spells carry element `e`.
pub open spec fn count_of(s: Seq<Spell>, e: Element) -> nat {
    sum_by(s, |x: Spell| if x.element == e { 1nat } else { 0nat })
}

/// The summed power of the spells carrying element `e`.
pub open spec fn power_of(s: Seq<Spell>, e: Element) -> nat {
    sum_by(s, |x: Spell| if x.element == e { x.power as nat } else { 0nat })
}

/// The summed mana cost of the spells.
pub open spec fn cost_of(s: Seq<Spell>) -> nat {
    sum_by(s, |x: Spell| x.mana_cost as nat)
}

/// The per-element tally of a bag, indexed by element rank. Counts saturate
/// at `u8::MAX` and powers at `u16::MAX`.
pub open spec fn initial_tally(s: Seq<Spell>) -> Seq<Tally> {
    Seq::new(
        ELEMENT_COUNT as nat,
        |i: int|
            Tally {
                count: cap(count_of(s, Element::at_rank(i as nat)), 255) as u8,
                power: cap(power_of(s, Element::at_rank(i as nat)), 65535) as u16,
            },
    )
}

/// Removing one spell takes exactly its share out of a sum.
pub proof fn lemma_sum_remove(s: Seq<Spell>, i: int, f: spec_fn(Spell) -> nat)
    requires
        0 <= i < s.len(),
    ensures
        sum_by(s, f) == sum_by(s.remove(i), f) + f(s[i]),
    decreases s.len(),
{
    if i == s.len() - 1 {
        assert(s.remove(i) =~= s.drop_last());
    } else {
        lemma_sum_remove(s.drop_last(), i, f);
        assert(s.drop_last().remove(i) =~= s.remove(i).drop_last());
        assert(s.remove(i).last() == s.last());
    }
}

/// A sum over a bag does not depend on the order of the bag.
pub proof fn lemma_sum_permutation(a: Seq<Spell>, b: Seq<Spell>, f: spec_fn(Spell) -> nat)
    requires
        a.to_multiset() == b.to_multiset(),
    ensures
        sum_by(a, f) == sum_by(b, f),
    decreases a.len(),
{
    if a.len() == 0 {
        assert(b.to_multiset().len() == 0);
        assert(b.len() == 0);
    } else {
        let x = a.last();
        assert(a.contains(x)) by {
            assert(a[a.len() - 1] == x);
        }
        assert(b.to_multiset().count(x) > 0);
        assert(b.contains(x));
        let j = choose|j: int| 0 <= j < b.len() && b[j] == x;
        assert(a.remove(a.len() - 1) =~= a.drop_last());
        assert(a.drop_last().to_multiset() == a.to_multiset().remove(x));
        assert(b.remove(j).to_multiset() == b.to_multiset().remove(x));
        lemma_sum_permutation(a.drop_last(), b.remove(j), f);
        lemma_sum_remove(b, j, f);
    }
}

/// The tally and total cost of a bag depend only on the bag as a multiset.
pub proof fn lemma_tally_permutation(a: Seq<Spell>, b: Seq<Spell>)
    requires
        a.to_multiset() == b.to_multiset(),
    ensures
        initial_tally(a) == initial_tally(b),
        cost_of(a) == cost_of(b),
{
    lemma_sum_permutation(a, b, |x: Spell| x.mana_cost as nat);
    assert forall|i: int| 0 <= i < ELEMENT_COUNT implies #[trigger] initial_tally(a)[i]
        == initial_tally(b)[i] by {
        let e = Element::at_rank(i as nat);
        lemma_sum_permutation(a, b, |x: Spell| if x.element == e { 1nat } else { 0nat });
        lemma_sum_permutation(a, b, |x: Spell| if x.element == e { x.power as nat } else { 0nat });
    }
    assert(initial_tally(a) =~= initial_tally(b));
}

/// The total mana of a bag, saturating at `u8::MAX`.
pub fn total_cost(components: &[Spell]) -> (r: u8)
    requires
        cost_of(components@) <= u16::MAX,
    ensures
        r == cap(cost_of(components@), 255),
{
    let ghost s = components@;
    let n = components.len();
    let mut sum: u16 = 0;
    let mut i: usize = 0;
    while i < n
        invariant
            n == s.len(),
            s == components@,
            i <= n,
            sum == cost_of(s.take(i as int)),
            cost_of(s) <= u16::MAX,
        decreases n - i,
    {
        proof {
            assert(s.take(i + 1).drop_last() =~= s.take(i as int));
            lemma_sum_prefix_le(s, i + 1, |x: Spell| x.mana_cost as nat);
        }
        sum = sum + components[i].mana_cost as u16;
        i = i + 1;
    }
    proof {
        assert(s.take(n as int) =~= s);
    }
    if sum > 255 {
        255
    } else {
        sum as u8
    }
}

/// A prefix sums to no more than the whole.
pub proof fn lemma_sum_prefix_le(s: Seq<Spell>, k: int, f: spec_fn(Spell) -> nat)
    requires
        0 <= k <= s.len(),
    ensures
        sum_by(s.take(k), f) <= sum_by(s, f),
    decreases s.len() - k,
{
    if k < s.len() {
        lemma_sum_prefix_le(s, k + 1, f);
        assert(s.take(k + 1).drop_last() =~= s.take(k));
    } else {
        assert(s.take(k) =~= s);
    }
}

/// Tally a bag by element.
fn tally_components(components: &[Spell]) -> (r: Vec<Tally>)
    ensures
        r@ == initial_tally(components@),
{
    let ghost s = components@;
    let mut tally: Vec<Tally> = Vec::new();
    let mut k: usize = 0;
    while k < ELEMENT_COUNT
        invariant
            k <= ELEMENT_COUNT,
            tally@.len() == k,
            forall|j: int| 0 <= j < k ==> #[trigger] tally@[j] == (Tally { count: 0, power: 0 }),
        decreases ELEMENT_COUNT - k,
    {
        tally.push(Tally { count: 0, power: 0 });
        k = k + 1;
    }
    let n = components.len();
    let mut i: usize = 0;
    while i < n
        invariant
            n == s.len(),
            s == components@,
            i <= n,
            tally@ == initial_tally(s.take(i as int)),
        decreases n - i,
    {
        let spell = &components[i];
        let idx = spell.element.index();
        let old_t = tally[idx];
        let t = Tally {
            count: old_t.count.saturating_add(1),
            power: old_t.power.saturating_add(spell.power),
        };
        tally.set(idx, t);
        proof {
            let p = s.take(i as int);
            let q = s.take(i + 1);
            assert(q.drop_last() =~= p);
            assert(q.last() == s[i as int]);
            assert forall|j: int| 0 <= j < ELEMENT_COUNT implies #[trigger] tally@[j]
                == initial_tally(q)[j] by {
                let e = Element::at_rank(j as nat);
                if j == idx {
                    crate::game::element::lemma_rank_roundtrip(spell.element);
                } else {
                    crate::game::element::lemma_rank_roundtrip(e);
                    assert(e != spell.element);
                }
            }
            assert(tally@ =~= initial_tally(q));
        }
        i = i + 1;
    }
    proof {
        assert(s.take(n as int) =~= s);
        if n == 0 {
            assert(tally@ =~= initial_tally(s));
        }
    }
    tally
}

/// Whether element rank `i` is in the tally.
pub open spec fn present(t: Seq<Tally>, i: int) -> bool {
    t[i].count > 0
}

/// How many of the first `n` ranks are in the tally.
pub open spec fn present_upto(t: Seq<Tally>, n: nat) -> nat
    decreases n,
{
    if n == 0 {
        0
    } else {
        present_upto(t, (n - 1) as nat) + if t[n - 1].count > 0 {
            1nat
        } else {
            0nat
        }
    }
}

/// Ranks `i < j`, both present, fuse under the rules.
pub open spec fn fusable(t: Seq<Tally>, rules: Rules, i: int, j: int) -> bool {
    &&& 0 <= i < j < ELEMENT_COUNT
    &&& present(t, i)
    &&& present(t, j)
    &&& rules.fusion_of(Element::at_rank(i as nat), Element::at_rank(j as nat)) is Some
}

/// Pair `(i, j)` comes before `(i2, j2)` in element order.
pub open spec fn pair_before(i: int, j: int, i2: int, j2: int) -> bool {
    i < i2 || (i == i2 && j < j2)
}

/// `(i, j)` is the first fusable pair in element order.
pub open spec fn first_fusable(t: Seq<Tally>, rules: Rules, i: int, j: int) -> bool {
    &&& fusable(t, rules, i, j)
    &&& forall|i2: int, j2: int|
        #![trigger fusable(t, rules, i2, j2)]
        pair_before(i2, j2, i, j) ==> !fusable(t, rules, i2, j2)
}

/// Combine two tallies into one, saturating.
pub open spec fn merged(z: Tally, a: Tally, b: Tally) -> Tally {
    Tally {
        count: cap((z.count + a.count + b.count) as nat, 255) as u8,
        power: cap((z.power + a.power + b.power) as nat, 65535) as u16,
    }
}

/// Replace ranks `i` and `j` by their fusion product `out`.
pub open spec fn fuse_step(t: Seq<Tally>, i: int, j: int, out: Element) -> Seq<Tally> {
    let z = t.update(i, Tally { count: 0, power: 0 }).update(j, Tally { count: 0, power: 0 });
    let k = out.rank() as int;
    z.update(k, merged(z[k], t[i], t[j]))
}

/// Collapse fusable pairs, first pair in element order first, until none
/// remain (each fusion removes at least one element, so `fuel` of
/// `ELEMENT_COUNT` always suffices).
pub open spec fn fuse_all(t: Seq<Tally>, rules: Rules, fuel: nat) -> Seq<Tally>
    decreases fuel,
{
    if fuel == 0 {
        t
    } else if exists|i: int, j: int| first_fusable(t, rules, i, j) {
        let (i, j) = choose|i: int, j: int| first_fusable(t, rules, i, j);
        fuse_all(
            fuse_step(t, i, j, rules.fusion_of(Element::at_rank(i as nat), Element::at_rank(j as nat))->0),
            rules,
            (fuel - 1) as nat,
        )
    } else {
        t
    }
}

/// Updating one rank changes the present count by exactly that rank's change.
pub proof fn lemma_present_update(t: Seq<Tally>, i: int, v: Tally, n: nat)
    requires
        0 <= i < t.len(),
        n <= t.len(),
    ensures
        i < n ==> present_upto(t.update(i, v), n) + (if t[i].count > 0 {
            1nat
        } else {
            0nat
        }) == present_upto(t, n) + (if v.count > 0 {
            1nat
        } else {
            0nat
        }),
        i >= n ==> present_upto(t.update(i, v), n) == present_upto(t, n),
    decreases n,
{
    if n > 0 {
        lemma_present_update(t, i, v, (n - 1) as nat);
    }
}

/// The present count is at least one when some rank below `n` is present.
pub proof fn lemma_present_positive(t: Seq<Tally>, i: int, n: nat)
    requires
        0 <= i < n <= t.len(),
        t[i].count > 0,
    ensures
        present_upto(t, n) >= 1,
    decreases n,
{
    if i < n - 1 {
        lemma_present_positive(t, i, (n - 1) as nat);
    }
}

/// A fusion removes at least one element and leaves at least one.
pub proof fn lemma_fuse_step_shrinks(t: Seq<Tally>, rules: Rules, i: int, j: int, out: Element)
    requires
        t.len() == ELEMENT_COUNT,
        fusable(t, rules, i, j),
    ensures
        fuse_step(t, i, j, out).len() == ELEMENT_COUNT,
        present_upto(fuse_step(t, i, j, out), ELEMENT_COUNT as nat) < present_upto(
            t,
            ELEMENT_COUNT as nat,
        ),
        present_upto(fuse_step(t, i, j, out), ELEMENT_COUNT as nat) >= 1,
        fuse_step(t, i, j, out)[out.rank() as int].count > 0,
{
    let zero = Tally { count: 0, power: 0 };
    let n = ELEMENT_COUNT as nat;
    let z1 = t.update(i, zero);
    let z = z1.update(j, zero);
    let k = out.rank() as int;
    crate::game::element::lemma_rank_roundtrip(out);
    lemma_present_update(t, i, zero, n);
    lemma_present_update(z1, j, zero, n);
    lemma_present_update(z, k, merged(z[k], t[i], t[j]), n);
    lemma_present_positive(fuse_step(t, i, j, out), k, n);
}

/// The first fusable pair, scanning in element order.
fn next_fusion(tally: &Vec<Tally>, rules: &Rules) -> (r: Option<(usize, usize, Element)>)
    requires
        tally@.len() == ELEMENT_COUNT,
    ensures
        r matches Some((i, j, out)) ==> first_fusable(tally@, *rules, i as int, j as int)
            && rules.fusion_of(Element::at_rank(i as nat), Element::at_rank(j as nat)) == Some(out),
        r is None ==> forall|i: int, j: int| !#[trigger] fusable(tally@, *rules, i, j),
{
    let mut i: usize = 0;
    while i < ELEMENT_COUNT
        invariant
            tally@.len() == ELEMENT_COUNT,
            i <= ELEMENT_COUNT,
            forall|i2: int, j2: int| i2 < i ==> !#[trigger] fusable(tally@, *rules, i2, j2),
        decreases ELEMENT_COUNT - i,
    {
        if tally[i].count > 0 {
            let mut j: usize = i + 1;
            while j < ELEMENT_COUNT
                invariant
                    tally@.len() == ELEMENT_COUNT,
                    i < ELEMENT_COUNT,
                    tally@[i as int].count > 0,
                    i < j <= ELEMENT_COUNT,
                    forall|i2: int, j2: int| i2 < i ==> !#[trigger] fusable(tally@, *rules, i2, j2),
                    forall|j2: int| j2 < j ==> !#[trigger] fusable(tally@, *rules, i as int, j2),
                decreases ELEMENT_COUNT - j,
            {
                if tally[j].count > 0 {
                    let a = Element::from_index(i);
                    let b = Element::from_index(j);
                    if let Some(out) = rules.fusion(a, b) {
                        return Some((i, j, out));
                    }
                }
                j = j + 1;
            }
        }
        i = i + 1;
    }
    None
}

/// Collapse fusable pairs until none remain. A fusion can create a new
/// fusable pair, hence the loop.
fn fuse_tally(tally: &mut Vec<Tally>, rules: &Rules)
    requires
        old(tally)@.len() == ELEMENT_COUNT,
        present_upto(old(tally)@, ELEMENT_COUNT as nat) >= 1,
    ensures
        final(tally)@ == fuse_all(old(tally)@, *rules, ELEMENT_COUNT as nat),
        final(tally)@.len() == ELEMENT_COUNT,
        present_upto(final(tally)@, ELEMENT_COUNT as nat) >= 1,
{
    let ghost start = tally@;
    let ghost mut fuel: nat = ELEMENT_COUNT as nat;
    proof {
        lemma_present_le(tally@, ELEMENT_COUNT as nat);
    }
    let mut next = next_fusion(tally, rules);
    while next.is_some()
        invariant
            tally@.len() == ELEMENT_COUNT,
            present_upto(tally@, ELEMENT_COUNT as nat) <= fuel,
            present_upto(tally@, ELEMENT_COUNT as nat) >= 1,
            fuse_all(tally@, *rules, fuel) == fuse_all(start, *rules, ELEMENT_COUNT as nat),
            next matches Some((i, j, out)) ==> first_fusable(tally@, *rules, i as int, j as int)
                && rules.fusion_of(Element::at_rank(i as nat), Element::at_rank(j as nat)) == Some(
                out,
            ),
            next is None ==> forall|i: int, j: int| !#[trigger] fusable(tally@, *rules, i, j),
        decreases present_upto(tally@, ELEMENT_COUNT as nat),
    {
        let (i, j, out) = next.unwrap();
        let ghost before = tally@;
        let ti = tally[i];
        let tj = tally[j];
        tally.set(i, Tally { count: 0, power: 0 });
        tally.set(j, Tally { count: 0, power: 0 });
        let k = out.index();
        let tk = tally[k];
        let t = Tally {
            count: tk.count.saturating_add(ti.count).saturating_add(tj.count),
            power: tk.power.saturating_add(ti.power).saturating_add(tj.power),
        };
        tally.set(k, t);
        proof {
            assert(tally@ =~= fuse_step(before, i as int, j as int, out));
            lemma_fuse_step_shrinks(before, *rules, i as int, j as int, out);
            lemma_present_pair(before, i as int, j as int);
            let pick = choose|a: int, b: int| first_fusable(before, *rules, a, b);
            lemma_first_fusable_unique(before, *rules, pick.0, pick.1, i as int, j as int);
            assert(fuse_all(before, *rules, fuel) == fuse_all(tally@, *rules, (fuel - 1) as nat));
            fuel = (fuel - 1) as nat;
        }
        next = next_fusion(tally, rules);
    }
    proof {
        if fuel > 0 {
            assert(!exists|a: int, b: int| first_fusable(tally@, *rules, a, b));
        }
    }
}

/// The present count never exceeds the number of ranks counted.
pub proof fn lemma_present_le(t: Seq<Tally>, n: nat)
    ensures
        present_upto(t, n) <= n,
    decreases n,
{
    if n > 0 {
        lemma_present_le(t, (n - 1) as nat);
    }
}

/// Two present ranks make the present count at least two.
pub proof fn lemma_present_pair(t: Seq<Tally>, i: int, j: int)
    requires
        0 <= i < j < t.len(),
        t.len() == ELEMENT_COUNT,
        t[i].count > 0,
        t[j].count > 0,
    ensures
        present_upto(t, ELEMENT_COUNT as nat) >= 2,
{
    let zero = Tally { count: 0, power: 0 };
    lemma_present_update(t, i, zero, ELEMENT_COUNT as nat);
    lemma_present_positive(t.update(i, zero), j, ELEMENT_COUNT as nat);
}

/// There is only one first fusable pair.
pub proof fn lemma_first_fusable_unique(t: Seq<Tally>, rules: Rules, a: int, b: int, c: int, d: int)
    requires
        first_fusable(t, rules, a, b),
        first_fusable(t, rules, c, d),
    ensures
        a == c && b == d,
{
    if pair_before(a, b, c, d) {
        assert(!fusable(t, rules, a, b));
    } else if pair_before(c, d, a, b) {
        assert(!fusable(t, rules, c, d));
    }
}

/// The largest power among present ranks below `n` (zero when none).
pub open spec fn max_power_upto(t: Seq<Tally>, n: nat) -> nat
    decreases n,
{
    if n == 0 {
        0
    } else {
        let m = max_power_upto(t, (n - 1) as nat);
        if present(t, n - 1) && t[n - 1].power > m {
            t[n - 1].power as nat
        } else {
            m
        }
    }
}

/// Rank `i` is present with the greatest power.
pub open spec fn is_top(t: Seq<Tally>, i: int) -> bool {
    &&& 0 <= i < ELEMENT_COUNT
    &&& present(t, i)
    &&& t[i].power == max_power_upto(t, ELEMENT_COUNT as nat)
}

/// Rank `a` is tied for the greatest power and reshapes-as-base another tied rank.
pub open spec fn leads_tie(t: Seq<Tally>, rules: Rules, a: int) -> bool {
    &&& is_top(t, a)
    &&& exists|b: int|
        #![trigger is_top(t, b)]
        is_top(t, b) && b != a && rules.modifier_of(
            Element::at_rank(a as nat),
            Element::at_rank(b as nat),
        ) is Some
}

pub open spec fn first_leader(t: Seq<Tally>, rules: Rules, a: int) -> bool {
    &&& leads_tie(t, rules, a)
    &&& forall|a2: int| #![trigger leads_tie(t, rules, a2)] a2 < a ==> !leads_tie(t, rules, a2)
}

pub open spec fn first_top(t: Seq<Tally>, a: int) -> bool {
    &&& is_top(t, a)
    &&& forall|a2: int| #![trigger is_top(t, a2)] a2 < a ==> !is_top(t, a2)
}

/// The base element's rank: the greatest power wins; a tie goes to the first
/// tied element that is the base side of a `Modify` rule against another tied
/// element, and failing that to the first tied element in element order.
pub open spec fn base_rank(t: Seq<Tally>, rules: Rules) -> int {
    if exists|a: int| first_leader(t, rules, a) {
        choose|a: int| first_leader(t, rules, a)
    } else {
        choose|a: int| first_top(t, a)
    }
}

/// Every present rank below `n` has at most the maximum power.
pub proof fn lemma_max_power_bounds(t: Seq<Tally>, n: nat, i: int)
    requires
        0 <= i < n <= t.len(),
        present(t, i),
    ensures
        t[i].power <= max_power_upto(t, n),
    decreases n,
{
    if i < n - 1 {
        lemma_max_power_bounds(t, (n - 1) as nat, i);
    }
}

/// When some rank below `n` is present, the maximum power is attained.
pub proof fn lemma_max_power_attained(t: Seq<Tally>, n: nat)
    requires
        n <= t.len(),
        present_upto(t, n) >= 1,
    ensures
        exists|i: int| 0 <= i < n && present(t, i) && t[i].power == max_power_upto(t, n),
    decreases n,
{
    if n > 0 {
        if present_upto(t, (n - 1) as nat) >= 1 {
            lemma_max_power_attained(t, (n - 1) as nat);
            let i = choose|i: int|
                0 <= i < n - 1 && present(t, i) && t[i].power == max_power_upto(t, (n - 1) as nat);
            if !(present(t, n - 1) && t[n - 1].power > max_power_upto(t, (n - 1) as nat)) {
                assert(0 <= i < n && present(t, i) && t[i].power == max_power_upto(t, n));
            } else {
                assert(present(t, n - 1) && t[n - 1].power == max_power_upto(t, n));
            }
        } else {
            assert(present(t, n - 1));
            lemma_max_zero_when_absent(t, (n - 1) as nat);
        }
    }
}

/// With nothing present below `n`, the maximum is zero.
pub proof fn lemma_max_zero_when_absent(t: Seq<Tally>, n: nat)
    requires
        n <= t.len(),
        present_upto(t, n) == 0,
    ensures
        max_power_upto(t, n) == 0,
    decreases n,
{
    if n > 0 {
        lemma_max_zero_when_absent(t, (n - 1) as nat);
    }
}

/// Pick the base element (see `base_rank`).
fn choose_base(tally: &Vec<Tally>, rules: &Rules) -> (r: usize)
    requires
        tally@.len() == ELEMENT_COUNT,
        present_upto(tally@, ELEMENT_COUNT as nat) >= 1,
    ensures
        r == base_rank(tally@, *rules),
        r < ELEMENT_COUNT,
        is_top(tally@, r as int),
{
    let ghost t = tally@;
    let mut max_power: u16 = 0;
    let mut i: usize = 0;
    while i < ELEMENT_COUNT
        invariant
            t == tally@,
            t.len() == ELEMENT_COUNT,
            i <= ELEMENT_COUNT,
            max_power == max_power_upto(t, i as nat),
        decreases ELEMENT_COUNT - i,
    {
        if tally[i].count > 0 && tally[i].power > max_power {
            max_power = tally[i].power;
        }
        i = i + 1;
    }
    // The first rank tied for the top that is the base side of a rule
    // against another tied rank.
    let mut a: usize = 0;
    while a < ELEMENT_COUNT
        invariant
            t == tally@,
            t.len() == ELEMENT_COUNT,
            a <= ELEMENT_COUNT,
            max_power == max_power_upto(t, ELEMENT_COUNT as nat),
            forall|a2: int| a2 < a ==> !#[trigger] leads_tie(t, *rules, a2),
        decreases ELEMENT_COUNT - a,
    {
        if tally[a].count > 0 && tally[a].power == max_power {
            let ea = Element::from_index(a);
            let mut b: usize = 0;
            while b < ELEMENT_COUNT
                invariant
                    t == tally@,
                    t.len() == ELEMENT_COUNT,
                    a < ELEMENT_COUNT,
                    is_top(t, a as int),
                    ea == Element::at_rank(a as nat),
                    b <= ELEMENT_COUNT,
                    max_power == max_power_upto(t, ELEMENT_COUNT as nat),
                    forall|a2: int| a2 < a ==> !#[trigger] leads_tie(t, *rules, a2),
                    forall|b2: int|
                        0 <= b2 < b ==> !(#[trigger] is_top(t, b2) && b2 != a && rules.modifier_of(
                            Element::at_rank(a as nat),
                            Element::at_rank(b2 as nat),
                        ) is Some),
                decreases ELEMENT_COUNT - b,
            {
                if b != a && tally[b].count > 0 && tally[b].power == max_power {
                    let eb = Element::from_index(b);
                    if rules.modifier(ea, eb).is_some() {
                        proof {
                            assert(is_top(t, b as int));
                            assert(leads_tie(t, *rules, a as int));
                            assert(first_leader(t, *rules, a as int));
                            let c = choose|c: int| first_leader(t, *rules, c);
                            if c < a {
                                assert(!leads_tie(t, *rules, c));
                            } else if c > a {
                                assert(!leads_tie(t, *rules, a as int));
                            }
                        }
                        return a;
                    }
                }
                b = b + 1;
            }
            proof {
                if leads_tie(t, *rules, a as int) {
                    let b2 = choose|b2: int|
                        #![trigger is_top(t, b2)]
                        is_top(t, b2) && b2 != a && rules.modifier_of(
                            Element::at_rank(a as nat),
                            Element::at_rank(b2 as nat),
                        ) is Some;
                    assert(false);
                }
            }
        }
        a = a + 1;
    }
    proof {
        assert(!exists|c: int| first_leader(t, *rules, c));
        lemma_max_power_attained(t, ELEMENT_COUNT as nat);
    }
    let mut k: usize = 0;
    while k < ELEMENT_COUNT
        invariant
            t == tally@,
            t.len() == ELEMENT_COUNT,
            k <= ELEMENT_COUNT,
            max_power == max_power_upto(t, ELEMENT_COUNT as nat),
            !exists|c: int| first_leader(t, *rules, c),
            exists|i: int| 0 <= i < ELEMENT_COUNT && #[trigger] present(t, i) && t[i].power
                == max_power_upto(t, ELEMENT_COUNT as nat),
            forall|a2: int| a2 < k ==> !#[trigger] is_top(t, a2),
        decreases ELEMENT_COUNT - k,
    {
        if tally[k].count > 0 && tally[k].power == max_power {
            proof {
                assert(first_top(t, k as int));
                let c = choose|c: int| first_top(t, c);
                if c < k {
                    assert(!is_top(t, c));
                } else if c > k {
                    assert(!is_top(t, k as int));
                }
            }
            return k;
        }
        k = k + 1;
    }
    proof {
        let i = choose|i: int| 0 <= i < ELEMENT_COUNT && #[trigger] present(t, i) && t[i].power
            == max_power_upto(t, ELEMENT_COUNT as nat);
        assert(is_top(t, i));
    }
    0
}

/// The modifier rank `r` applies to the base at rank `b`, if any. The base
/// does not modify itself, and absent elements modify nothing.
pub open spec fn mod_at(t: Seq<Tally>, rules: Rules, b: int, r: int) -> Option<Modifier> {
    if r != b && present(t, r) {
        rules.modifier_of(Element::at_rank(b as nat), Element::at_rank(r as nat))
    } else {
        None
    }
}

/// The base power times the multipliers, in thousandths, of the modifiers of
/// ranks below `n`, exactly: a modifier of 0.8 multiplies it by 800. Over
/// `thousands(steps_upto(..))` it is the damage those modifiers make.
pub open spec fn scaled_upto(t: Seq<Tally>, rules: Rules, b: int, n: nat) -> nat
    decreases n,
{
    if n == 0 {
        t[b].power as nat
    } else {
        let c = scaled_upto(t, rules, b, (n - 1) as nat);
        match mod_at(t, rules, b, n - 1) {
            Some(m) => c * m.power_permille as nat,
            None => c,
        }
    }
}

/// Targeting after the modifiers of ranks below `n`: the last one that says.
pub open spec fn targeting_upto(t: Seq<Tally>, rules: Rules, b: int, n: nat) -> Targeting
    decreases n,
{
    if n == 0 {
        Targeting::Single
    } else {
        let prev = targeting_upto(t, rules, b, (n - 1) as nat);
        match mod_at(t, rules, b, n - 1) {
            Some(m) => match m.targeting {
                Some(x) => x,
                None => prev,
            },
            None => prev,
        }
    }
}

/// Whether any modifier of ranks below `n` makes the spell pierce.
pub open spec fn pierce_upto(t: Seq<Tally>, rules: Rules, b: int, n: nat) -> bool
    decreases n,
{
    if n == 0 {
        false
    } else {
        pierce_upto(t, rules, b, (n - 1) as nat) || match mod_at(t, rules, b, n - 1) {
            Some(m) => m.pierce,
            None => false,
        }
    }
}

/// The statuses the modifiers of ranks below `n` add, two rounds each.
pub open spec fn adds_upto(t: Seq<Tally>, rules: Rules, b: int, n: nat) -> Seq<(Status, u8)>
    decreases n,
{
    if n == 0 {
        Seq::empty()
    } else {
        let prev = adds_upto(t, rules, b, (n - 1) as nat);
        match mod_at(t, rules, b, n - 1) {
            Some(m) => match m.adds {
                Some(st) => prev.push((st, 2u8)),
                None => prev,
            },
            None => prev,
        }
    }
}

/// How many ranks below `n` modify the base.
pub open spec fn steps_upto(t: Seq<Tally>, rules: Rules, b: int, n: nat) -> nat
    decreases n,
{
    if n == 0 {
        0
    } else {
        steps_upto(t, rules, b, (n - 1) as nat) + if mod_at(t, rules, b, n - 1) is Some {
            1nat
        } else {
            0nat
        }
    }
}

/// `1000` to the power `k`.
pub open spec fn thousands(k: nat) -> nat
    decreases k,
{
    if k == 0 {
        1
    } else {
        1000 * thousands((k - 1) as nat)
    }
}

proof fn lemma_thousands_monotone(a: nat, b: nat)
    requires
        a <= b,
    ensures
        1 <= thousands(a) <= thousands(b),
    decreases b,
{
    if b > 0 {
        if a < b {
            lemma_thousands_monotone(a, (b - 1) as nat);
        } else {
            lemma_thousands_monotone((a - 1) as nat, (b - 1) as nat);
        }
    }
}

proof fn lemma_thousands_ten()
    ensures
        thousands(10) == 1000000000000000000000000000000,
{
    reveal_with_fuel(thousands, 11);
}

/// The exact damage `num / den` rounded to the nearest whole, halves up.
pub open spec fn round_ratio(num: nat, den: nat) -> nat {
    ((2 * num + den) / (2 * den)) as nat
}

proof fn lemma_steps_bound(t: Seq<Tally>, rules: Rules, b: int, n: nat)
    requires
        0 <= b,
    ensures
        steps_upto(t, rules, b, n) <= if b < n {
            n - 1
        } else {
            n as int
        },
    decreases n,
{
    if n > 0 {
        lemma_steps_bound(t, rules, b, (n - 1) as nat);
    }
}

/// The rounds of the first entry for `st`, if any.
pub open spec fn first_rounds(c: Seq<(Status, u8)>, st: Status) -> Option<u8>
    decreases c.len(),
{
    if c.len() == 0 {
        None
    } else if c[0].0 == st {
        Some(c[0].1)
    } else {
        first_rounds(c.subrange(1, c.len() as int), st)
    }
}

/// One entry per status among the first `n` statuses, in status order, each
/// with the rounds of its first occurrence in `c`.
pub open spec fn status_list(c: Seq<(Status, u8)>, n: nat) -> Seq<(Status, u8)>
    decreases n,
{
    if n == 0 {
        Seq::empty()
    } else {
        let rest = status_list(c, (n - 1) as nat);
        match first_rounds(c, Status::at_rank((n - 1) as nat)) {
            Some(r) => rest.push((Status::at_rank((n - 1) as nat), r)),
            None => rest,
        }
    }
}

/// The suffix a generated name carries for its tier.
pub open spec fn numeral(tier: u8) -> Seq<char> {
    if tier <= 1 {
        ""@
    } else if tier == 2 {
        " II"@
    } else if tier == 3 {
        " III"@
    } else if tier == 4 {
        " IV"@
    } else {
        " V"@
    }
}

/// The generated name for a signature with no authored one.
pub open spec fn fallback_view(element: Element, tier: u8) -> Seq<char> {
    element.name_view() + numeral(tier)
}

/// What a bag of components resolves to.
#[derive(Debug, Clone, PartialEq, Eq)]
pub struct ResolvedSpell {
    pub name: String,
    pub element: Element,
    pub tier: u8,
    pub damage: u16,
    pub targeting: Targeting,
    pub pierce: bool,
    pub statuses: Vec<(Status, u8)>,
    pub mana_cost: u8,
}

/// A resolved spell seen as plain values.
pub struct ResolvedView {
    pub name: Seq<char>,
    pub element: Element,
    pub tier: u8,
    pub damage: u16,
    pub targeting: Targeting,
    pub pierce: bool,
    pub statuses: Seq<(Status, u8)>,
    pub mana_cost: u8,
}

impl View for ResolvedSpell {
    type V = ResolvedView;

    open spec fn view(&self) -> ResolvedView {
        ResolvedView {
            name: self.name@,
            element: self.element,
            tier: self.tier,
            damage: self.damage,
            targeting: self.targeting,
            pierce: self.pierce,
            statuses: self.statuses@,
            mana_cost: self.mana_cost,
        }
    }
}

/// What a tally and a total cost resolve to.
pub open spec fn resolve_tally(t0: Seq<Tally>, cost: nat, rules: Rules) -> ResolvedView {
    let t = fuse_all(t0, rules, ELEMENT_COUNT as nat);
    let b = base_rank(t, rules);
    let base = Element::at_rank(b as nat);
    let tier = t[b].count;
    let targeting = targeting_upto(t, rules, b, ELEMENT_COUNT as nat);
    let num = scaled_upto(t, rules, b, ELEMENT_COUNT as nat);
    let den = thousands(steps_upto(t, rules, b, ELEMENT_COUNT as nat));
    ResolvedView {
        name: match rules.name_of(base, tier, targeting) {
            Some(n) => n,
            None => fallback_view(base, tier),
        },
        element: base,
        tier,
        damage: cap(round_ratio(num, den), 65535) as u16,
        targeting,
        pierce: pierce_upto(t, rules, b, ELEMENT_COUNT as nat),
        statuses: status_list(
            rules.statuses_of(base, tier) + adds_upto(t, rules, b, ELEMENT_COUNT as nat),
            STATUS_COUNT as nat,
        ),
        mana_cost: cap(cost, 255) as u8,
    }
}

/// What a bag of components resolves to.
///
/// 1. Tally components by element, summing their power.
/// 2. Fuse pairs of present elements with a `Fuse` rule, first pair in
///    element order first, until none remain.
/// 3. The base is the element with the greatest power (ties: see `base_rank`).
/// 4. Every other present element applies its `Modify` rule against the base,
///    in element order: scaling damage, setting targeting, pierce, adding a
///    status for two rounds. Their own power does not add to the damage.
/// 5. Tier is the number of base-element components.
/// 6. Statuses are the base's inherent ones at that tier, then the added
///    ones, one per status (the first wins), in status order.
/// 7. The name is the authored one for `(element, tier, targeting)`, else
///    the element's name with the tier as a numeral.
pub open spec fn resolution(s: Seq<Spell>, rules: Rules) -> ResolvedView {
    resolve_tally(initial_tally(s), cost_of(s), rules)
}

/// A modifier of ranks below `n` makes the spell pierce exactly when one of
/// them, present and not the base, reshapes the base by a rule that pierces.
proof fn lemma_pierce_upto_iff(t: Seq<Tally>, rules: Rules, b: int, n: nat)
    ensures
        pierce_upto(t, rules, b, n) <==> exists|r: int|
            0 <= r < n && r != b && #[trigger] present(t, r) && (rules.modifier_of(
                Element::at_rank(b as nat),
                Element::at_rank(r as nat),
            ) matches Some(m) && m.pierce),
    decreases n,
{
    if n > 0 {
        lemma_pierce_upto_iff(t, rules, b, (n - 1) as nat);
        let r = n - 1;
        if r != b && present(t, r) && (rules.modifier_of(Element::at_rank(b as nat), Element::at_rank(r as nat)) matches Some(m)
            && m.pierce) {
            assert(mod_at(t, rules, b, r) == rules.modifier_of(Element::at_rank(b as nat), Element::at_rank(r as nat)));
        }
        if pierce_upto(t, rules, b, n) && !pierce_upto(t, rules, b, (n - 1) as nat) {
            assert(present(t, r));
        }
    }
}

/// A resolved spell pierces armour exactly when some element of the bag
/// other than its base, present once fusion is done, reshapes the base by a
/// rule that pierces: a piercing modifier is never lost, and nothing else
/// makes a spell pierce.
pub proof fn lemma_pierce_from_modifiers(s: Seq<Spell>, rules: Rules)
    ensures
        ({
            let t = fuse_all(initial_tally(s), rules, ELEMENT_COUNT as nat);
            let b = base_rank(t, rules);
            resolution(s, rules).pierce <==> exists|r: int|
                0 <= r < ELEMENT_COUNT && r != b && #[trigger] present(t, r) && (rules.modifier_of(
                    Element::at_rank(b as nat),
                    Element::at_rank(r as nat),
                ) matches Some(m) && m.pierce)
        }),
{
    let t = fuse_all(initial_tally(s), rules, ELEMENT_COUNT as nat);
    let b = base_rank(t, rules);
    lemma_pierce_upto_iff(t, rules, b, ELEMENT_COUNT as nat);
}

/// Resolution is order independent: two bags holding the same components,
/// in whatever order, resolve to the same spell.
pub proof fn lemma_resolution_order_independent(a: Seq<Spell>, b: Seq<Spell>, rules: Rules)
    requires
        a.to_multiset() == b.to_multiset(),
    ensures
        resolution(a, rules) == resolution(b, rules),
{
    lemma_tally_permutation(a, b);
}

fn numeral_str(tier: u8) -> (r: &'static str)
    ensures
        r@ == numeral(tier),
{
    if tier <= 1 {
        ""
    } else if tier == 2 {
        " II"
    } else if tier == 3 {
        " III"
    } else if tier == 4 {
        " IV"
    } else {
        " V"
    }
}

/// The generated name for a signature with no authored one, e.g. "Gust II".
pub fn fallback_name(element: Element, tier: u8) -> (r: String)
    ensures
        r@ == fallback_view(element, tier),
{
    let s = String::from_str(element.name());
    s.concat(numeral_str(tier))
}

/// Skipping a non-matching first entry does not change the first match.
proof fn lemma_first_rounds_step(c: Seq<(Status, u8)>, i: int, st: Status)
    requires
        0 <= i < c.len(),
    ensures
        first_rounds(c.subrange(i, c.len() as int), st) == if c[i].0 == st {
            Some(c[i].1)
        } else {
            first_rounds(c.subrange(i + 1, c.len() as int), st)
        },
{
    let t = c.subrange(i, c.len() as int);
    assert(t.subrange(1, t.len() as int) =~= c.subrange(i + 1, c.len() as int));
    assert(t[0] == c[i]);
}

/// One entry per status, in status order, with its first rounds in `c`.
fn first_per_status(c: &Vec<(Status, u8)>) -> (r: Vec<(Status, u8)>)
    ensures
        r@ == status_list(c@, STATUS_COUNT as nat),
{
    let mut out: Vec<(Status, u8)> = Vec::new();
    let n = c.len();
    let mut k: usize = 0;
    while k < STATUS_COUNT
        invariant
            n == c@.len(),
            k <= STATUS_COUNT,
            out@ == status_list(c@, k as nat),
        decreases STATUS_COUNT - k,
    {
        let st = Status::from_index(k);
        let mut i: usize = 0;
        let mut found: Option<u8> = None;
        proof {
            assert(c@.subrange(0, n as int) =~= c@);
        }
        while i < n && found.is_none()
            invariant
                n == c@.len(),
                i <= n,
                found is None ==> first_rounds(c@.subrange(i as int, n as int), st) == first_rounds(
                    c@,
                    st,
                ),
                found is Some ==> found == first_rounds(c@, st),
            decreases n - i,
        {
            proof {
                lemma_first_rounds_step(c@, i as int, st);
            }
            if c[i].0 == st {
                found = Some(c[i].1);
            }
            i = i + 1;
        }
        proof {
            if found is None {
                assert(c@.subrange(n as int, n as int).len() == 0);
            }
            assert(found == first_rounds(c@, st));
        }
        if let Some(r) = found {
            out.push((st, r));
        }
        k = k + 1;
    }
    out
}

/// Exact damage numerators from here on round, over at most ten modifiers,
/// to the cap or above.
pub const HUGE: u128 = 65536000000000000000000000000000000;

/// Resolve a bag of components into a single spell.
///
/// Returns `None` for an empty bag -- there is no such thing as a spell with
/// no components.
pub fn resolve(components: &[Spell], rules: &Rules) -> (r: Option<ResolvedSpell>)
    requires
        cost_of(components@) <= u16::MAX,
    ensures
        r is None <==> components@.len() == 0,
        r matches Some(x) ==> x@ == resolution(components@, *rules),
{
    if components.len() == 0 {
        return None;
    }
    let mana_cost = total_cost(components);
    let mut tally = tally_components(components);
    proof {
        let s = components@;
        let e = s[0].element;
        crate::game::element::lemma_rank_roundtrip(e);
        lemma_sum_prefix_le(s, 1, |x: Spell| if x.element == e { 1nat } else { 0nat });
        assert(s.take(1).drop_last() =~= Seq::<Spell>::empty());
        assert(tally@[e.rank() as int].count > 0);
        lemma_present_positive(tally@, e.rank() as int, ELEMENT_COUNT as nat);
    }
    fuse_tally(&mut tally, rules);
    let ghost t = tally@;
    let b = choose_base(&tally, rules);
    let base = Element::from_index(b);
    let base_tally = tally[b];

    // Every other present element applies as a modifier on the base. Their
    // power does not contribute to damage.
    // The damage is kept exactly, as `num / den`, and rounded once at the
    // end. Past `HUGE` it can only end at the cap unless a later modifier
    // zeroes it, so it is not carried further.
    let mut num: u128 = base_tally.power as u128;
    let mut den: u128 = 1;
    let mut huge = false;
    let mut targeting = Targeting::Single;
    let mut pierce = false;
    let mut added: Vec<(Status, u8)> = Vec::new();
    let ghost mut steps: nat = 0;
    let mut r: usize = 0;
    proof {
        lemma_thousands_ten();
    }
    while r < ELEMENT_COUNT
        invariant
            t == tally@,
            t.len() == ELEMENT_COUNT,
            b < ELEMENT_COUNT,
            base == Element::at_rank(b as nat),
            r <= ELEMENT_COUNT,
            thousands(10) == 1000000000000000000000000000000,
            huge ==> scaled_upto(t, *rules, b as int, r as nat) >= HUGE,
            !huge ==> num == scaled_upto(t, *rules, b as int, r as nat) && num < HUGE,
            steps == steps_upto(t, *rules, b as int, r as nat),
            steps <= 10,
            den == thousands(steps),
            targeting == targeting_upto(t, *rules, b as int, r as nat),
            pierce == pierce_upto(t, *rules, b as int, r as nat),
            added@ == adds_upto(t, *rules, b as int, r as nat),
        decreases ELEMENT_COUNT - r,
    {
        proof {
            lemma_steps_bound(t, *rules, b as int, (r + 1) as nat);
        }
        if r != b && tally[r].count > 0 {
            let e = Element::from_index(r);
            if let Some(m) = rules.modifier(base, e) {
                let p = m.power_permille;
                proof {
                    let prev = scaled_upto(t, *rules, b as int, r as nat);
                    assert(steps + 1 <= 10);
                    lemma_thousands_monotone(steps + 1, 10);
                    if huge && p > 0 {
                        assert(prev * p >= prev) by (nonlinear_arith)
                            requires
                                p >= 1,
                        ;
                    }
                }
                if huge {
                    if p == 0 {
                        huge = false;
                        num = 0;
                    }
                } else {
                    match num.checked_mul(p as u128) {
                        Some(x) => {
                            num = x;
                            if num >= HUGE {
                                huge = true;
                            }
                        },
                        // Past the widest integer is past `HUGE` too.
                        None => {
                            huge = true;
                        },
                    }
                }
                proof {
                    let prev = scaled_upto(t, *rules, b as int, r as nat);
                    assert(mod_at(t, *rules, b as int, r as int) == Some(*m));
                    assert(scaled_upto(t, *rules, b as int, (r + 1) as nat) == prev * p as nat);
                    if p == 0 {
                        assert(prev * 0 == 0) by (nonlinear_arith);
                    }
                }
                den = den * 1000;
                if let Some(x) = m.targeting {
                    targeting = x;
                }
                pierce = pierce || m.pierce;
                if let Some(st) = m.adds {
                    added.push((st, 2));
                }
                proof {
                    steps = steps + 1;
                }
            }
        }
        r = r + 1;
    }

    // Tier is how many base-element components went in.
    let tier = base_tally.count;

    // Statuses: whatever the element applies inherently, plus modifier adds,
    // one per status, the first occurrence winning.
    let mut combined = rules.element_statuses(base, tier);
    let ghost inherent = combined@;
    let mut k: usize = 0;
    let na = added.len();
    while k < na
        invariant
            na == added@.len(),
            k <= na,
            combined@ == inherent + added@.take(k as int),
        decreases na - k,
    {
        combined.push(added[k]);
        proof {
            assert(inherent + added@.take(k + 1) =~= (inherent + added@.take(k as int)).push(
                added@[k as int],
            ));
        }
        k = k + 1;
    }
    proof {
        assert(added@.take(na as int) =~= added@);
    }
    let statuses = first_per_status(&combined);

    let name = match rules.name(base, tier, targeting) {
        Some(n) => String::from_str(n),
        None => fallback_name(base, tier),
    };

    let damage: u16 = if huge {
        proof {
            let n = scaled_upto(t, *rules, b as int, ELEMENT_COUNT as nat);
            let d = den as nat;
            lemma_thousands_monotone(steps, 10);
            assert(round_ratio(n, d) >= 65536) by (nonlinear_arith)
                requires
                    n >= HUGE,
                    1 <= d <= 1000000000000000000000000000000,
                    HUGE == 65536 * 1000000000000000000000000000000,
                    round_ratio(n, d) == (2 * n + d) / (2 * d),
            ;
        }
        65535
    } else {
        proof {
            lemma_thousands_monotone(steps, 10);
        }
        let rounded = (2 * num + den) / (2 * den);
        if rounded > 65535 {
            65535
        } else {
            rounded as u16
        }
    };
    Some(ResolvedSpell { name, element: base, tier, damage, targeting, pierce, statuses, mana_cost })
}

/// Sums agree over two lists that agree pointwise under `f`.
pub proof fn lemma_sum_congruent(a: Seq<Spell>, b: Seq<Spell>, f: spec_fn(Spell) -> nat)
    requires
        a.len() == b.len(),
        forall|k: int| 0 <= k < a.len() ==> f(#[trigger] a[k]) == f(b[k]),
    ensures
        sum_by(a, f) == sum_by(b, f),
    decreases a.len(),
{
    if a.len() > 0 {
        lemma_sum_congruent(a.drop_last(), b.drop_last(), f);
        assert(f(a[a.len() - 1]) == f(b[b.len() - 1]));
    }
}

/// Two bags whose spells agree in element, power and cost, position by
/// position, resolve alike (names and art play no part).
pub proof fn lemma_resolution_congruent(a: Seq<Spell>, b: Seq<Spell>, rules: Rules)
    requires
        a.len() == b.len(),
        forall|k: int|
            0 <= k < a.len() ==> (#[trigger] a[k]).element == b[k].element && a[k].power == b[k].power
                && a[k].mana_cost == b[k].mana_cost,
    ensures
        initial_tally(a) == initial_tally(b),
        cost_of(a) == cost_of(b),
        resolution(a, rules) == resolution(b, rules),
{
    lemma_tally_congruent(a, b);
}

/// Spells that agree in element, power and cost tally and cost alike.
pub proof fn lemma_tally_congruent(a: Seq<Spell>, b: Seq<Spell>)
    requires
        a.len() == b.len(),
        forall|k: int|
            0 <= k < a.len() ==> (#[trigger] a[k]).element == b[k].element && a[k].power == b[k].power
                && a[k].mana_cost == b[k].mana_cost,
    ensures
        initial_tally(a) == initial_tally(b),
        cost_of(a) == cost_of(b),
{
    lemma_sum_congruent(a, b, |x: Spell| x.mana_cost as nat);
    assert forall|i: int| 0 <= i < ELEMENT_COUNT implies #[trigger] initial_tally(a)[i]
        == initial_tally(b)[i] by {
        let e = Element::at_rank(i as nat);
        lemma_sum_congruent(a, b, |x: Spell| if x.element == e { 1nat } else { 0nat });
        lemma_sum_congruent(a, b, |x: Spell| if x.element == e { x.power as nat } else { 0nat });
    }
    assert(initial_tally(a) =~= initial_tally(b));
}

} // verus!
