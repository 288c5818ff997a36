//! Branching map generation.
//!
//! Every generated map satisfies the map invariant (`RunMap::wf`), from which
//! the two properties that matter follow: every node is reachable from the
//! start, and the boss is reachable from every node. A map that failed
//! either would strand the player.

use rand::rngs::StdRng;
use vstd::prelude::*;

use crate::game::chance::{random_below, random_inclusive};
use crate::game::map::{
    RunMap, Node, NodeId, NodeKind, entered, exits_ok, laid_out, shaped,
};

verus! {

/// The kind of a node between the bottom and top rows, for a roll in
/// `0..100`: weighted so fights stay the backbone of a run.
pub open spec fn kind_for_roll_spec(roll: i32) -> NodeKind {
    if 0 <= roll < 22 {
        NodeKind::Event
    } else if 22 <= roll < 34 {
        NodeKind::Shop
    } else {
        NodeKind::Fight
    }
}

pub fn kind_for_roll(roll: i32) -> (k: NodeKind)
    ensures
        k == kind_for_roll_spec(roll),
{
    if 0 <= roll && roll < 22 {
        NodeKind::Event
    } else if 22 <= roll && roll < 34 {
        NodeKind::Shop
    } else {
        NodeKind::Fight
    }
}

/// The column of the row above that sits roughly over column `i` of a row
/// `f` wide, when the row above is `t` wide.
pub open spec fn aligned(i: int, f: int, t: int) -> int {
    i * t / f
}

proof fn lemma_aligned_in_range(i: int, f: int, t: int)
    requires
        0 <= i < f,
        t > 0,
    ensures
        0 <= aligned(i, f, t) < t,
        aligned(0, f, t) == 0,
{
    assert(0 <= i * t / f < t) by (nonlinear_arith)
        requires
            0 <= i < f,
            t > 0,
    ;
    assert(0 * t / f == 0) by (nonlinear_arith)
        requires
            f > 0,
    ;
}

fn aligned_for(i: usize, f: usize, t: usize) -> (a: usize)
    requires
        i < f <= 3,
        0 < t <= 3,
    ensures
        a == aligned(i as int, f as int, t as int),
        a < t,
{
    proof {
        lemma_aligned_in_range(i as int, f as int, t as int);
        assert(i * t <= 9) by (nonlinear_arith)
            requires
                i < 3,
                t <= 3,
        ;
    }
    (i * t) / f
}

/// Nothing but the exits differs between two versions of a node.
pub open spec fn same_but_exits(a: Node, b: Node) -> bool {
    &&& a.id == b.id
    &&& a.kind == b.kind
    &&& a.row == b.row
    &&& a.col == b.col
}

/// Exits wired into the row `to`: one or two, ascending, all in `to`,
/// among them the node at column `home`.
pub open spec fn wired_to(nx: Seq<NodeId>, to: Seq<NodeId>, home: int) -> bool {
    &&& 1 <= nx.len() <= 2
    &&& forall|k: int| 0 <= k < nx.len() ==> to.contains(#[trigger] nx[k])
    &&& forall|a: int, b: int| 0 <= a < b < nx.len() ==> #[trigger] nx[a] < #[trigger] nx[b]
    &&& nx.contains(to[home])
}

/// Nodes outside `from` are as they were.
pub open spec fn untouched_outside(before: Seq<Node>, after: Seq<Node>, from: Seq<NodeId>) -> bool {
    &&& after.len() == before.len()
    &&& forall|id: int| 0 <= id < before.len() && !from.contains(id as NodeId) ==> #[trigger] after[id] == before[id]
}

/// Each node of `from` differs only in its exits, which are wired into
/// `to` and include the node roughly above it.
pub open spec fn rewired(before: Seq<Node>, after: Seq<Node>, from: Seq<NodeId>, to: Seq<NodeId>) -> bool {
    forall|i: int|
        0 <= i < from.len() ==> same_but_exits(before[from[i] as int], #[trigger] after[from[i] as int])
            && wired_to(after[from[i] as int].next@, to, aligned(i, from.len() as int, to.len() as int))
}

/// Some node of `from` has `target` among its exits.
pub open spec fn enters(nodes: Seq<Node>, from: Seq<NodeId>, target: NodeId) -> bool {
    exists|i: int| 0 <= i < from.len() && (#[trigger] nodes[from[i] as int].next@).contains(target)
}

/// The first `n` nodes of `to` are entered from `from`.
pub open spec fn covers_upto(nodes: Seq<Node>, from: Seq<NodeId>, to: Seq<NodeId>, n: int) -> bool {
    forall|j: int| 0 <= j < n ==> #[trigger] enters(nodes, from, to[j])
}

/// What wiring the row `from` to the row `to` did: only the exits of the
/// nodes of `from` changed; each got one or two exits into `to`, among them
/// the node roughly above it; every node of `to` is entered; and the exits
/// are those the three steps of wiring build.
pub open spec fn connected(before: Seq<Node>, after: Seq<Node>, from: Seq<NodeId>, to: Seq<NodeId>) -> bool {
    &&& untouched_outside(before, after, from)
    &&& rewired(before, after, from, to)
    &&& covers_upto(after, from, to, to.len() as int)
    &&& row_built(after, from, to)
}

/// What `connect` asks of its rows: two or three nodes wired to one to three
/// nodes, at most one more than below; distinct nodes, the upper row in
/// ascending order.
pub open spec fn connectable(nodes: Seq<Node>, from: Seq<NodeId>, to: Seq<NodeId>) -> bool {
    &&& 2 <= from.len() <= 3
    &&& 1 <= to.len() <= 3
    &&& to.len() <= from.len() + 1
    &&& forall|a: int| 0 <= a < from.len() ==> (#[trigger] from[a]) < nodes.len()
    &&& forall|b: int| 0 <= b < to.len() ==> (#[trigger] to[b]) < nodes.len()
    &&& forall|a: int, b: int| 0 <= a < from.len() && 0 <= b < to.len() ==> #[trigger] from[a] != #[trigger] to[b]
    &&& forall|a: int, b: int| 0 <= a < b < from.len() ==> #[trigger] from[a] != #[trigger] from[b]
    &&& forall|a: int, b: int| 0 <= a < b < to.len() ==> #[trigger] to[a] < #[trigger] to[b]
}

fn has_id(v: &Vec<NodeId>, x: NodeId) -> (r: bool)
    ensures
        r == v@.contains(x),
{
    let n = v.len();
    let mut i: usize = 0;
    while i < n
        invariant
            n == v@.len(),
            i <= n,
            forall|k: int| 0 <= k < i ==> v@[k] != x,
        decreases n - i,
    {
        if v[i] == x {
            return true;
        }
        i = i + 1;
    }
    false
}

/// Add `x` to a one-element exit list, keeping it sorted.
fn insert_sorted(v: &mut Vec<NodeId>, x: NodeId)
    requires
        old(v)@.len() == 1,
        old(v)@[0] != x,
    ensures
        final(v)@ == (if old(v)@[0] < x {
            seq![old(v)@[0], x]
        } else {
            seq![x, old(v)@[0]]
        }),
{
    let first = v[0];
    if first < x {
        v.push(x);
    } else {
        v[0] = x;
        v.push(first);
    }
    proof {
        if first < x {
            assert(v@ =~= seq![first, x]);
        } else {
            assert(v@ =~= seq![x, first]);
        }
    }
}

/// Adding `x` to a one-element exit list keeps it wired, and keeps every
/// exit it had.
proof fn lemma_insert_keeps_wiring(nx: Seq<NodeId>, ny: Seq<NodeId>, x: NodeId, to: Seq<NodeId>, home: int)
    requires
        wired_to(nx, to, home),
        nx.len() == 1,
        nx[0] != x,
        to.contains(x),
        ny == (if nx[0] < x {
            seq![nx[0], x]
        } else {
            seq![x, nx[0]]
        }),
    ensures
        wired_to(ny, to, home),
        ny.contains(x),
        forall|y: NodeId| nx.contains(y) ==> ny.contains(y),
        ny.len() == 2,
{
    assert(nx.contains(to[home]));
    let c = choose|c: int| 0 <= c < nx.len() && nx[c] == to[home];
    assert(c == 0);
    if nx[0] < x {
        assert(ny[0] == nx[0] && ny[1] == x);
    } else {
        assert(ny[1] == nx[0] && ny[0] == x);
    }
    assert forall|k: int| 0 <= k < ny.len() implies to.contains(#[trigger] ny[k]) by {
        if ny[k] != x {
            assert(ny[k] == nx[0]);
            assert(to.contains(nx[0]));
        }
    }
    assert forall|y: NodeId| nx.contains(y) implies ny.contains(y) by {
        let c2 = choose|c2: int| 0 <= c2 < nx.len() && nx[c2] == y;
        assert(c2 == 0);
        if nx[0] < x {
            assert(ny[0] == y);
        } else {
            assert(ny[1] == y);
        }
    }
    if nx[0] < x {
        assert(ny[1] == x);
    } else {
        assert(ny[0] == x);
    }
}

/// Changing one node of `from`, `from[b]`, by adding to its exits keeps
/// everything that was entered entered, keeps the rewiring and leaves the
/// rest alone.
proof fn lemma_one_node_grew(
    before: Seq<Node>,
    cur: Seq<Node>,
    now: Seq<Node>,
    from: Seq<NodeId>,
    to: Seq<NodeId>,
    b: int,
    n: int,
)
    requires
        connectable(before, from, to),
        0 <= b < from.len(),
        0 <= n <= to.len(),
        untouched_outside(before, cur, from),
        rewired(before, cur, from, to),
        covers_upto(cur, from, to, n),
        now.len() == cur.len(),
        forall|x: int| 0 <= x < cur.len() && x != from[b] as int ==> #[trigger] now[x] == cur[x],
        same_but_exits(cur[from[b] as int], now[from[b] as int]),
        wired_to(now[from[b] as int].next@, to, aligned(b, from.len() as int, to.len() as int)),
        forall|y: NodeId| cur[from[b] as int].next@.contains(y) ==> now[from[b] as int].next@.contains(y),
    ensures
        untouched_outside(before, now, from),
        rewired(before, now, from, to),
        covers_upto(now, from, to, n),
{
    assert forall|x: int| 0 <= x < before.len() && !from.contains(x as NodeId) implies #[trigger] now[x] == before[x] by {
        assert(x != from[b] as int) by {
            if x == from[b] as int {
                assert(from.contains(x as NodeId));
            }
        }
        assert(cur[x] == before[x]);
    }
    assert forall|i: int| 0 <= i < from.len() implies same_but_exits(before[from[i] as int], #[trigger] now[from[i] as int])
        && wired_to(now[from[i] as int].next@, to, aligned(i, from.len() as int, to.len() as int)) by {
        assert(same_but_exits(before[from[i] as int], cur[from[i] as int]));
        if i != b {
            assert(from[i] != from[b]);
        }
    }
    assert forall|j: int| 0 <= j < n implies #[trigger] enters(now, from, to[j]) by {
        assert(enters(cur, from, to[j]));
        let i = choose|i: int| 0 <= i < from.len() && (#[trigger] cur[from[i] as int].next@).contains(to[j]);
        if i != b {
            assert(from[i] != from[b]);
            assert(now[from[i] as int] == cur[from[i] as int]);
        }
        assert(now[from[i] as int].next@.contains(to[j]));
    }
}

/// Step one of wiring: every node gets the node roughly above it.
fn align_exits(nodes: &mut Vec<Node>, from: &Vec<NodeId>, to: &Vec<NodeId>)
    requires
        connectable(old(nodes)@, from@, to@),
    ensures
        untouched_outside(old(nodes)@, final(nodes)@, from@),
        rewired(old(nodes)@, final(nodes)@, from@, to@),
        forall|i: int| 0 <= i < from@.len() ==> (#[trigger] final(nodes)@[from@[i] as int]).next@.len() == 1,
        forall|i: int|
            0 <= i < from@.len() ==> (#[trigger] final(nodes)@[from@[i] as int]).next@ == seq![
                to@[aligned(i, from@.len() as int, to@.len() as int)],
            ],
        covers_upto(final(nodes)@, from@, to@, 1),
{
    let f = from.len();
    let t = to.len();
    let ghost before = nodes@;
    let mut i: usize = 0;
    while i < f
        invariant
            f == from@.len(),
            t == to@.len(),
            i <= f,
            connectable(before, from@, to@),
            nodes@.len() == before.len(),
            forall|id: int| 0 <= id < before.len() && !from@.subrange(0, i as int).contains(id as NodeId) ==> #[trigger] nodes@[id] == before[id],
            forall|k: int|
                0 <= k < i ==> same_but_exits(before[from@[k] as int], #[trigger] nodes@[from@[k] as int])
                    && nodes@[from@[k] as int].next@ == seq![to@[aligned(k, f as int, t as int)]],
        decreases f - i,
    {
        let a = aligned_for(i, f, t);
        let id = from[i];
        let mut exits: Vec<NodeId> = Vec::new();
        exits.push(to[a]);
        nodes[id].next = exits;
        proof {
            let now = nodes@;
            assert forall|x: int| 0 <= x < before.len() && !from@.subrange(0, i + 1).contains(x as NodeId) implies #[trigger] now[x] == before[x] by {
                assert(x != id as int) by {
                    assert(from@.subrange(0, i + 1)[i as int] == id);
                }
                if from@.subrange(0, i as int).contains(x as NodeId) {
                    let c = choose|c: int| 0 <= c < i && from@.subrange(0, i as int)[c] == x as NodeId;
                    assert(from@.subrange(0, i + 1)[c] == x as NodeId);
                }
            }
            assert forall|k: int|
                0 <= k < i + 1 implies same_but_exits(before[from@[k] as int], #[trigger] now[from@[k] as int])
                    && now[from@[k] as int].next@ == seq![to@[aligned(k, f as int, t as int)]] by {
                if k < i {
                    assert(from@[k] != from@[i as int]);
                } else {
                    assert(!from@.subrange(0, i as int).contains(id)) by {
                        if from@.subrange(0, i as int).contains(id) {
                            let c = choose|c: int| 0 <= c < i && from@.subrange(0, i as int)[c] == id;
                            assert(from@[c] == from@[i as int]);
                        }
                    }
                    assert(exits@ =~= seq![to@[a as int]]);
                }
            }
        }
        i = i + 1;
    }
    proof {
        let now = nodes@;
        assert(from@.subrange(0, f as int) =~= from@);
        assert forall|k: int| 0 <= k < f implies wired_to(#[trigger] now[from@[k] as int].next@, to@, aligned(k, f as int, t as int)) by {
            lemma_aligned_in_range(k, f as int, t as int);
            let h = aligned(k, f as int, t as int);
            let nx = now[from@[k] as int].next@;
            assert(nx[0] == to@[h]);
            assert(to@.contains(to@[h]));
            assert(nx.contains(to@[h]));
        }
        assert(rewired(before, now, from@, to@));
        lemma_aligned_in_range(0, f as int, t as int);
        assert(now[from@[0] as int].next@[0] == to@[0]);
        assert(enters(now, from@, to@[0]));
    }
}

/// Whether some node of `from` already has `target` among its exits.
fn is_entered(nodes: &Vec<Node>, from: &Vec<NodeId>, target: NodeId) -> (r: bool)
    requires
        forall|a: int| 0 <= a < from@.len() ==> (#[trigger] from@[a]) < nodes@.len(),
    ensures
        r == enters(nodes@, from@, target),
{
    let f = from.len();
    let mut i: usize = 0;
    while i < f
        invariant
            f == from@.len(),
            i <= f,
            forall|a: int| 0 <= a < from@.len() ==> (#[trigger] from@[a]) < nodes@.len(),
            forall|k: int| 0 <= k < i ==> !(#[trigger] nodes@[from@[k] as int].next@).contains(target),
        decreases f - i,
    {
        if has_id(&nodes[from[i]].next, target) {
            return true;
        }
        i = i + 1;
    }
    false
}

/// How far the column above the node at index `i` of a row `f` wide lies
/// from column `j` of a row `t` wide.
pub open spec fn column_gap(i: int, f: int, t: int, j: int) -> int {
    let a = aligned(i, f, t);
    if a > j {
        a - j
    } else {
        j - a
    }
}

/// The node of `from` that should take an exit to column `j`: the first of
/// those with room for another exit whose column above lies nearest `j`.
fn pick_source(nodes: &Vec<Node>, from: &Vec<NodeId>, t: usize, j: usize) -> (r: Option<usize>)
    requires
        2 <= from@.len() <= 3,
        0 < t <= 3,
        forall|a: int| 0 <= a < from@.len() ==> (#[trigger] from@[a]) < nodes@.len(),
    ensures
        r is None ==> forall|k: int| 0 <= k < from@.len() ==> (#[trigger] nodes@[from@[k] as int]).next@.len() >= 2,
        r is Some ==> r->0 < from@.len() && nodes@[from@[r->0 as int] as int].next@.len() < 2,
        r matches Some(b) ==> forall|k: int|
            0 <= k < from@.len() && (#[trigger] nodes@[from@[k] as int]).next@.len() < 2 ==> column_gap(
                k,
                from@.len() as int,
                t as int,
                j as int,
            ) > column_gap(b as int, from@.len() as int, t as int, j as int) || (k >= b && column_gap(
                k,
                from@.len() as int,
                t as int,
                j as int,
            ) == column_gap(b as int, from@.len() as int, t as int, j as int)),
{
    let f = from.len();
    let mut best: Option<usize> = None;
    let mut best_d: usize = 0;
    let mut i: usize = 0;
    while i < f
        invariant
            f == from@.len(),
            2 <= f <= 3,
            0 < t <= 3,
            i <= f,
            forall|a: int| 0 <= a < from@.len() ==> (#[trigger] from@[a]) < nodes@.len(),
            best is None ==> forall|k: int| 0 <= k < i ==> (#[trigger] nodes@[from@[k] as int]).next@.len() >= 2,
            best is Some ==> best->0 < i && nodes@[from@[best->0 as int] as int].next@.len() < 2,
            best matches Some(b) ==> best_d == column_gap(b as int, f as int, t as int, j as int),
            best matches Some(b) ==> forall|k: int|
                0 <= k < i && (#[trigger] nodes@[from@[k] as int]).next@.len() < 2 ==> column_gap(
                    k,
                    f as int,
                    t as int,
                    j as int,
                ) > best_d || (k >= b && column_gap(k, f as int, t as int, j as int) == best_d),
        decreases f - i,
    {
        if nodes[from[i]].next.len() < 2 {
            let a = aligned_for(i, f, t);
            let d = if a > j {
                a - j
            } else {
                j - a
            };
            let better = match best {
                None => true,
                Some(_) => d < best_d,
            };
            if better {
                best = Some(i);
                best_d = d;
            }
        }
        i = i + 1;
    }
    best
}

/// While fewer nodes are full than there are nodes, some node has room.
proof fn lemma_room_left(nodes: Seq<Node>, from: Seq<NodeId>, pushed: Seq<int>)
    requires
        forall|i: int| 0 <= i < from.len() ==> ((#[trigger] nodes[from[i] as int]).next@.len() >= 2 <==> pushed.contains(i)),
        pushed.no_duplicates(),
        pushed.len() < from.len(),
    ensures
        exists|k: int| 0 <= k < from.len() && (#[trigger] nodes[from[k] as int]).next@.len() < 2,
{
    if forall|k: int| 0 <= k < from.len() ==> (#[trigger] nodes[from[k] as int]).next@.len() >= 2 {
        let f = from.len() as int;
        assert forall|k: int| vstd::set_lib::set_int_range(0, f).contains(k) implies pushed.to_set().contains(k) by {
            assert(nodes[from[k] as int].next@.len() >= 2);
            assert(pushed.contains(k));
        }
        vstd::set_lib::lemma_int_range(0, f);
        pushed.unique_seq_to_set();
        vstd::seq_lib::seq_to_set_is_finite(pushed);
        vstd::set_lib::lemma_len_subset(vstd::set_lib::set_int_range(0, f), pushed.to_set());
    }
}

/// No node of a row `f` wide sits below column `j` of the row above, `t`
/// wide: that column is left for the gap-filling step.
pub open spec fn unaimed(f: int, t: int, j: int) -> bool {
    forall|k: int| 0 <= k < f ==> #[trigger] aligned(k, f, t) != j
}

/// The node at index `i` took the gap at column `j` from the nearest source
/// with room: every node as near as it and earlier in the row, or nearer,
/// had already filled a gap further left.
pub open spec fn nearest_with_room(fills: Seq<Option<int>>, f: int, t: int, i: int, j: int) -> bool {
    forall|k: int|
        0 <= k < f && k != i && (column_gap(k, f, t, j) < column_gap(i, f, t, j) || (column_gap(k, f, t, j)
            == column_gap(i, f, t, j) && k < i)) ==> (#[trigger] fills[k] matches Some(j2) && j2 < j)
}

/// What filling the gaps did with `fills`, the column each node of `from`
/// took, if any: each took at most one, a column nobody sat below, from the
/// nearest source with room; every such column below `n` was taken.
pub open spec fn gaps_filled(fills: Seq<Option<int>>, f: int, t: int, n: int) -> bool {
    &&& fills.len() == f
    &&& forall|i: int|
        0 <= i < f ==> (#[trigger] fills[i] matches Some(j) ==> 0 <= j < n && unaimed(f, t, j) && nearest_with_room(
            fills,
            f,
            t,
            i,
            j,
        ))
    &&& forall|j: int| 0 <= j < n && #[trigger] unaimed(f, t, j) ==> exists|i: int| 0 <= i < f && fills[i] == Some(j)
}

/// The exits of the node at column `home` once aligned and, where it took
/// one, given the gap it filled.
pub open spec fn filled_exits(to: Seq<NodeId>, home: int, fill: Option<int>) -> Seq<NodeId> {
    match fill {
        Some(j) => with_exit(seq![to[home]], to[j]),
        None => seq![to[home]],
    }
}

/// Step two of wiring: every node above that nobody points at gets an
/// exit from the nearest node below that has room for one.
///
/// Gives back, for each node of `from`, the column whose gap it filled, if
/// any.
fn cover_gaps(nodes: &mut Vec<Node>, from: &Vec<NodeId>, to: &Vec<NodeId>) -> (fills: Ghost<Seq<Option<int>>>)
    requires
        connectable(old(nodes)@, from@, to@),
        rewired(old(nodes)@, old(nodes)@, from@, to@),
        forall|i: int|
            0 <= i < from@.len() ==> (#[trigger] old(nodes)@[from@[i] as int]).next@ == seq![
                to@[aligned(i, from@.len() as int, to@.len() as int)],
            ],
        covers_upto(old(nodes)@, from@, to@, 1),
    ensures
        untouched_outside(old(nodes)@, final(nodes)@, from@),
        rewired(old(nodes)@, final(nodes)@, from@, to@),
        covers_upto(final(nodes)@, from@, to@, to@.len() as int),
        gaps_filled(fills@, from@.len() as int, to@.len() as int, to@.len() as int),
        forall|i: int|
            0 <= i < from@.len() ==> (#[trigger] final(nodes)@[from@[i] as int]).next@ == filled_exits(
                to@,
                aligned(i, from@.len() as int, to@.len() as int),
                fills@[i],
            ),
{
    let f = from.len();
    let t = to.len();
    let ghost before = nodes@;
    let ghost mut pushed: Seq<int> = Seq::empty();
    let ghost mut fills: Seq<Option<int>> = Seq::new(f as nat, |i: int| None);
    let mut j: usize = 0;
    while j < t
        invariant
            f == from@.len(),
            t == to@.len(),
            j <= t,
            connectable(before, from@, to@),
            untouched_outside(before, nodes@, from@),
            rewired(before, nodes@, from@, to@),
            forall|i: int| 0 <= i < f ==> ((#[trigger] nodes@[from@[i] as int]).next@.len() >= 2 <==> pushed.contains(i)),
            pushed.no_duplicates(),
            pushed.len() == 0 || pushed.len() + 1 <= j,
            covers_upto(nodes@, from@, to@, if j == 0 { 1 } else { j as int }),
            gaps_filled(fills, f as int, t as int, j as int),
            forall|i: int| 0 <= i < f ==> (#[trigger] fills[i] is Some <==> pushed.contains(i)),
            forall|i: int|
                0 <= i < f ==> (#[trigger] nodes@[from@[i] as int]).next@ == filled_exits(
                    to@,
                    aligned(i, f as int, t as int),
                    fills[i],
                ),
        decreases t - j,
    {
        let target = to[j];
        let ghost cur = nodes@;
        let ghost fills0 = fills;
        if !is_entered(nodes, from, target) {
            proof {
                if j == 0 {
                    assert(enters(cur, from@, to@[0]));
                }
                lemma_room_left(cur, from@, pushed);
                assert(unaimed(f as int, t as int, j as int)) by {
                    assert forall|k: int| 0 <= k < f implies #[trigger] aligned(k, f as int, t as int) != j by {
                        lemma_aligned_in_range(k, f as int, t as int);
                        if aligned(k, f as int, t as int) == j {
                            assert(cur[from@[k] as int].next@ == filled_exits(to@, j as int, fills[k]));
                            lemma_filled_exits_contain_home(to@, j as int, fills[k]);
                            assert(enters(cur, from@, target));
                        }
                    }
                }
            }
            match pick_source(nodes, from, t, j) {
                Some(b) => {
                    let source = from[b];
                    let ghost nx = cur[source as int].next@;
                    proof {
                        assert(same_but_exits(before[from@[b as int] as int], cur[from@[b as int] as int]));
                        assert(wired_to(nx, to@, aligned(b as int, f as int, t as int)));
                        assert(!nx.contains(target)) by {
                            if nx.contains(target) {
                                assert(enters(cur, from@, target));
                            }
                        }
                        assert(nx.len() == 1);
                        assert(to@.contains(target)) by {
                            assert(to@[j as int] == target);
                        }
                        assert(fills[b as int] is None) by {
                            if fills[b as int] is Some {
                                assert(pushed.contains(b as int));
                            }
                        }
                    }
                    insert_sorted(&mut nodes[source].next, target);
                    proof {
                        let now = nodes@;
                        let h = aligned(b as int, f as int, t as int);
                        lemma_insert_keeps_wiring(nx, now[source as int].next@, target, to@, h);
                        lemma_one_node_grew(before, cur, now, from@, to@, b as int, if j == 0 { 1 } else { j as int });
                        assert(enters(now, from@, to@[j as int])) by {
                            assert(now[from@[b as int] as int].next@.contains(target));
                        }
                        assert(!pushed.contains(b as int));
                        let pushed2 = pushed.push(b as int);
                        assert forall|i2: int| 0 <= i2 < f implies ((#[trigger] now[from@[i2] as int]).next@.len() >= 2 <==> pushed2.contains(i2)) by {
                            if i2 == b as int {
                                assert(pushed2[pushed.len() as int] == b as int);
                            } else {
                                assert(from@[i2] != from@[b as int]);
                                assert(now[from@[i2] as int] == cur[from@[i2] as int]);
                                if pushed.contains(i2) {
                                    let c = choose|c: int| 0 <= c < pushed.len() && pushed[c] == i2;
                                    assert(pushed2[c] == i2);
                                }
                                if pushed2.contains(i2) {
                                    let c = choose|c: int| 0 <= c < pushed2.len() && pushed2[c] == i2;
                                    assert(c < pushed.len());
                                    assert(pushed[c] == i2);
                                }
                            }
                        }
                        assert(pushed2.no_duplicates());
                        let fills2 = fills.update(b as int, Some(j as int));
                        assert(nx == seq![to@[h]]);
                        assert(now[source as int].next@ == filled_exits(to@, h, Some(j as int)));
                        assert forall|i2: int| 0 <= i2 < f implies (#[trigger] fills2[i2] is Some <==> pushed2.contains(i2)) by {
                            if i2 == b as int {
                                assert(pushed2[pushed.len() as int] == b as int);
                            } else {
                                if pushed.contains(i2) {
                                    let c = choose|c: int| 0 <= c < pushed.len() && pushed[c] == i2;
                                    assert(pushed2[c] == i2);
                                }
                                if pushed2.contains(i2) {
                                    let c = choose|c: int| 0 <= c < pushed2.len() && pushed2[c] == i2;
                                    assert(c < pushed.len());
                                    assert(pushed[c] == i2);
                                }
                            }
                        }
                        assert forall|i2: int| 0 <= i2 < f implies (#[trigger] now[from@[i2] as int]).next@ == filled_exits(
                            to@,
                            aligned(i2, f as int, t as int),
                            fills2[i2],
                        ) by {
                            if i2 != b as int {
                                assert(from@[i2] != from@[b as int]);
                                assert(now[from@[i2] as int] == cur[from@[i2] as int]);
                            }
                        }
                        assert(nearest_with_room(fills2, f as int, t as int, b as int, j as int)) by {
                            assert forall|k: int|
                                0 <= k < f && k != b && (column_gap(k, f as int, t as int, j as int) < column_gap(
                                    b as int,
                                    f as int,
                                    t as int,
                                    j as int,
                                ) || (column_gap(k, f as int, t as int, j as int) == column_gap(
                                    b as int,
                                    f as int,
                                    t as int,
                                    j as int,
                                ) && k < b)) implies (#[trigger] fills2[k] matches Some(j2) && j2 < j) by {
                                if cur[from@[k] as int].next@.len() < 2 {
                                    assert(false);
                                }
                                assert(pushed.contains(k));
                                assert(fills[k] is Some);
                                assert(fills2[k] == fills[k]);
                            }
                        }
                        assert(gaps_filled(fills2, f as int, t as int, j + 1)) by {
                            assert forall|i2: int|
                                0 <= i2 < f implies (#[trigger] fills2[i2] matches Some(jj) ==> 0 <= jj < j + 1 && unaimed(
                                    f as int,
                                    t as int,
                                    jj,
                                ) && nearest_with_room(fills2, f as int, t as int, i2, jj)) by {
                                if i2 != b as int && fills[i2] is Some {
                                    let jj = fills[i2]->0;
                                    assert(nearest_with_room(fills, f as int, t as int, i2, jj));
                                    assert forall|k: int|
                                        0 <= k < f && k != i2 && (column_gap(k, f as int, t as int, jj) < column_gap(
                                            i2,
                                            f as int,
                                            t as int,
                                            jj,
                                        ) || (column_gap(k, f as int, t as int, jj) == column_gap(
                                            i2,
                                            f as int,
                                            t as int,
                                            jj,
                                        ) && k < i2)) implies (#[trigger] fills2[k] matches Some(j2) && j2 < jj) by {
                                        assert(fills[k] matches Some(j2) && j2 < jj);
                                        if k == b {
                                            assert(false);
                                        }
                                    }
                                }
                            }
                            assert forall|jj: int| 0 <= jj < j + 1 && #[trigger] unaimed(f as int, t as int, jj) implies exists|i2: int|
                                0 <= i2 < f && fills2[i2] == Some(jj) by {
                                if jj < j {
                                    let i2 = choose|i2: int| 0 <= i2 < f && fills[i2] == Some(jj);
                                    assert(i2 != b as int);
                                    assert(fills2[i2] == Some(jj));
                                } else {
                                    assert(fills2[b as int] == Some(jj));
                                }
                            }
                        }
                        pushed = pushed2;
                        fills = fills2;
                    }
                },
                None => {
                    proof {
                        let k = choose|k: int| 0 <= k < f && (#[trigger] cur[from@[k] as int].next@.len() < 2);
                        assert(false);
                    }
                },
            }
        } else {
            proof {
                assert(!unaimed(f as int, t as int, j as int)) by {
                    let i = choose|i: int| 0 <= i < f && (#[trigger] cur[from@[i] as int].next@).contains(target);
                    let h = aligned(i, f as int, t as int);
                    lemma_aligned_in_range(i, f as int, t as int);
                    lemma_filled_exit_columns(to@, h, fills[i], target, j as int);
                    if h != j {
                        let jj = fills[i]->0;
                        assert(fills[i] matches Some(j2) && j2 < j);
                        assert(false);
                    }
                    assert(aligned(i, f as int, t as int) == j);
                }
                assert(gaps_filled(fills, f as int, t as int, j + 1)) by {
                    assert forall|jj: int| 0 <= jj < j + 1 && #[trigger] unaimed(f as int, t as int, jj) implies exists|i2: int|
                        0 <= i2 < f && fills[i2] == Some(jj) by {
                        assert(jj < j);
                    }
                }
            }
        }
        proof {
            let now = nodes@;
            assert(enters(now, from@, to@[j as int]));
            assert forall|jj: int| 0 <= jj < j + 1 implies #[trigger] enters(now, from@, to@[jj]) by {
                if jj == 0 {
                    assert(jj < (if j == 0 { 1 } else { j as int }));
                }
            }
        }
        j = j + 1;
    }
    Ghost(fills)
}

/// The column a node sat below is among its exits, whatever gap it filled.
proof fn lemma_filled_exits_contain_home(to: Seq<NodeId>, home: int, fill: Option<int>)
    ensures
        filled_exits(to, home, fill).contains(to[home]),
{
    let e = filled_exits(to, home, fill);
    match fill {
        Some(j) => {
            if to[home] < to[j] {
                assert(e[0] == to[home]);
            } else {
                assert(e[1] == to[home]);
            }
        },
        None => {
            assert(e[0] == to[home]);
        },
    }
}

/// An exit of an aligned node that filled a gap left of `j` is a column of
/// `to` left of `j`, or the column it sat below; in an ascending row, exit
/// `to[j]` is then the column it sat below.
proof fn lemma_filled_exit_columns(to: Seq<NodeId>, home: int, fill: Option<int>, x: NodeId, j: int)
    requires
        forall|a: int, b: int| 0 <= a < b < to.len() ==> #[trigger] to[a] < #[trigger] to[b],
        0 <= home < to.len(),
        0 <= j < to.len(),
        x == to[j],
        filled_exits(to, home, fill).contains(x),
        fill matches Some(jf) ==> 0 <= jf < j,
    ensures
        home == j,
{
    let e = filled_exits(to, home, fill);
    let c = choose|c: int| 0 <= c < e.len() && e[c] == x;
    if e[c] != to[home] {
        let jf = fill->0;
        assert(e[c] == to[jf]);
        assert(to[jf] < to[j]);
    } else if home != j {
        if home < j {
            assert(to[home] < to[j]);
        } else {
            assert(to[j] < to[home]);
        }
    }
}

/// The column next to `a` in a row `t` wide: the one to its right where
/// there is one, else the one to its left.
pub open spec fn neighbour_col(a: int, t: int) -> int {
    if a + 1 < t {
        a + 1
    } else {
        a - 1
    }
}

/// A one-exit list with `x` added, in ascending order.
pub open spec fn with_exit(nx: Seq<NodeId>, x: NodeId) -> Seq<NodeId> {
    if nx[0] < x {
        seq![nx[0], x]
    } else {
        seq![x, nx[0]]
    }
}

/// The exits `nx` of the node at column `home` after its branching roll,
/// if it drew one: a roll under 38 adds the neighbouring column of the row
/// `to`, unless that is an exit already. No roll, no change.
pub open spec fn branched(nx: Seq<NodeId>, to: Seq<NodeId>, home: int, roll: Option<i32>) -> Seq<NodeId> {
    match roll {
        Some(r) => {
            let x = to[neighbour_col(home, to.len() as int)];
            if r < 38 && !nx.contains(x) {
                with_exit(nx, x)
            } else {
                nx
            }
        },
        None => nx,
    }
}

/// What branching did to the node of `from` at index `i`: it drew a roll in
/// `0..100` exactly when the node had a single exit and the row above has a
/// neighbouring column to offer, and its exits are what that roll made of
/// them.
pub open spec fn branched_at(
    before: Seq<Node>,
    after: Seq<Node>,
    from: Seq<NodeId>,
    to: Seq<NodeId>,
    i: int,
    roll: Option<i32>,
) -> bool {
    let nx = before[from[i] as int].next@;
    &&& (roll is Some <==> (nx.len() < 2 && to.len() >= 2))
    &&& (roll matches Some(r) ==> 0 <= r < 100)
    &&& after[from[i] as int].next@ == branched(nx, to, aligned(i, from.len() as int, to.len() as int), roll)
}

/// The exits the node at column `home` ends with: the column it sits below,
/// the gap it filled if any, then what its branching roll added, if it drew
/// one.
pub open spec fn planned_exits(to: Seq<NodeId>, home: int, fill: Option<int>, roll: Option<i32>) -> Seq<NodeId> {
    branched(filled_exits(to, home, fill), to, home, roll)
}

/// The row `from` is wired into the row `to` as the three steps build it,
/// with `fills` the gap each node filled and `rolls` the branching roll each
/// drew: gaps filled from the nearest source with room; a roll, in `0..100`,
/// drawn exactly by the nodes that filled no gap, where the row above has a
/// neighbouring column to offer; and each node's exits what these make.
pub open spec fn built_row(
    nodes: Seq<Node>,
    from: Seq<NodeId>,
    to: Seq<NodeId>,
    fills: Seq<Option<int>>,
    rolls: Seq<Option<i32>>,
) -> bool {
    let f = from.len() as int;
    let t = to.len() as int;
    &&& gaps_filled(fills, f, t, t)
    &&& rolls.len() == f
    &&& forall|i: int| 0 <= i < f ==> (#[trigger] rolls[i] is Some <==> (fills[i] is None && t >= 2))
    &&& forall|i: int| 0 <= i < f ==> (#[trigger] rolls[i] matches Some(r) ==> 0 <= r < 100)
    &&& forall|i: int|
        0 <= i < f ==> (#[trigger] nodes[from[i] as int]).next@ == planned_exits(to, aligned(i, f, t), fills[i], rolls[i])
}

/// The row `from` is wired into the row `to` as the three steps build it,
/// for some gaps filled and rolls drawn.
pub open spec fn row_built(nodes: Seq<Node>, from: Seq<NodeId>, to: Seq<NodeId>) -> bool {
    exists|fills: Seq<Option<int>>, rolls: Seq<Option<i32>>| #[trigger] built_row(nodes, from, to, fills, rolls)
}

/// Step three of wiring: a little extra branching where there is still
/// room, only ever to a neighbouring column. Kept sparse on purpose: the more
/// edges, the less the player's choice matters.
///
/// Gives back, for each node of `from` in turn, the roll it drew, if any.
fn branch_out(nodes: &mut Vec<Node>, from: &Vec<NodeId>, to: &Vec<NodeId>, rng: &mut StdRng) -> (rolls: Ghost<Seq<Option<i32>>>)
    requires
        connectable(old(nodes)@, from@, to@),
        rewired(old(nodes)@, old(nodes)@, from@, to@),
        covers_upto(old(nodes)@, from@, to@, to@.len() as int),
    ensures
        untouched_outside(old(nodes)@, final(nodes)@, from@),
        rewired(old(nodes)@, final(nodes)@, from@, to@),
        covers_upto(final(nodes)@, from@, to@, to@.len() as int),
        rolls@.len() == from@.len(),
        forall|i: int| 0 <= i < from@.len() ==> #[trigger] branched_at(old(nodes)@, final(nodes)@, from@, to@, i, rolls@[i]),
{
    let f = from.len();
    let t = to.len();
    let ghost before = nodes@;
    let ghost mut rolls: Seq<Option<i32>> = Seq::empty();
    let mut i: usize = 0;
    while i < f
        invariant
            f == from@.len(),
            t == to@.len(),
            i <= f,
            connectable(before, from@, to@),
            untouched_outside(before, nodes@, from@),
            rewired(before, nodes@, from@, to@),
            covers_upto(nodes@, from@, to@, t as int),
            rolls.len() == i,
            forall|k: int| 0 <= k < i ==> #[trigger] branched_at(before, nodes@, from@, to@, k, rolls[k]),
            forall|k: int| i <= k < f ==> #[trigger] nodes@[from@[k] as int] == before[from@[k] as int],
        decreases f - i,
    {
        let id = from[i];
        let ghost cur = nodes@;
        let ghost h = aligned(i as int, f as int, t as int);
        proof {
            assert(cur[id as int] == before[id as int]);
        }
        if nodes[id].next.len() < 2 && t >= 2 {
            let roll = random_below(rng, 0, 100);
            proof {
                rolls = rolls.push(Some(roll));
            }
            if roll < 38 {
                let a = aligned_for(i, f, t);
                let neighbour = if a + 1 < t {
                    to[a + 1]
                } else {
                    to[a - 1]
                };
                if !has_id(&nodes[id].next, neighbour) {
                    let ghost nx = cur[id as int].next@;
                    proof {
                        lemma_aligned_in_range(i as int, f as int, t as int);
                        assert(same_but_exits(before[from@[i as int] as int], cur[from@[i as int] as int]));
                        assert(wired_to(nx, to@, h));
                        assert(nx.len() == 1);
                        if a + 1 < t {
                            assert(to@.contains(to@[a + 1]));
                        } else {
                            assert(to@.contains(to@[a - 1]));
                        }
                    }
                    insert_sorted(&mut nodes[id].next, neighbour);
                    proof {
                        let now = nodes@;
                        lemma_insert_keeps_wiring(nx, now[id as int].next@, neighbour, to@, h);
                        lemma_one_node_grew(before, cur, now, from@, to@, i as int, t as int);
                        assert(neighbour == to@[neighbour_col(h, t as int)]);
                        assert(now[id as int].next@ == with_exit(nx, neighbour));
                    }
                }
            }
        } else {
            proof {
                rolls = rolls.push(None);
            }
        }
        proof {
            let now = nodes@;
            assert(branched_at(before, now, from@, to@, i as int, rolls[i as int]));
            assert forall|k: int| 0 <= k < i + 1 implies #[trigger] branched_at(before, now, from@, to@, k, rolls[k]) by {
                if k < i {
                    assert(branched_at(before, cur, from@, to@, k, rolls[k]));
                    assert(from@[k] != from@[i as int]);
                    assert(now[from@[k] as int] == cur[from@[k] as int]);
                }
            }
            assert forall|k: int| i + 1 <= k < f implies #[trigger] now[from@[k] as int] == before[from@[k] as int] by {
                assert(from@[k] != from@[i as int]);
                assert(cur[from@[k] as int] == before[from@[k] as int]);
            }
        }
        i = i + 1;
    }
    Ghost(rolls)
}

/// Wire one row to the next.
///
/// Built so that two invariants hold by construction rather than by repair:
/// every node above has something pointing at it, and no node below ends up
/// with more than two exits. The second keeps the drawn map readable.
fn connect(nodes: &mut Vec<Node>, from: &Vec<NodeId>, to: &Vec<NodeId>, rng: &mut StdRng)
    requires
        connectable(old(nodes)@, from@, to@),
    ensures
        connected(old(nodes)@, final(nodes)@, from@, to@),
{
    let ghost n0 = nodes@;
    align_exits(nodes, from, to);
    let ghost n1 = nodes@;
    proof {
        lemma_rewired_again(n0, n1, from@, to@);
    }
    let fills = cover_gaps(nodes, from, to);
    let ghost n2 = nodes@;
    proof {
        lemma_rewired_again(n1, n2, from@, to@);
    }
    let rolls = branch_out(nodes, from, to, rng);
    proof {
        let n3 = nodes@;
        lemma_rewired_chain(n0, n1, n2, n3, from@, to@);
        let f = from@.len() as int;
        let t = to@.len() as int;
        assert forall|i: int| 0 <= i < f implies (#[trigger] rolls@[i] is Some <==> (fills@[i] is None && t >= 2)) by {
            assert(branched_at(n2, n3, from@, to@, i, rolls@[i]));
            assert(n2[from@[i] as int].next@ == filled_exits(to@, aligned(i, f, t), fills@[i]));
        }
        assert forall|i: int| 0 <= i < f implies (#[trigger] rolls@[i] matches Some(r) ==> 0 <= r < 100) by {
            assert(branched_at(n2, n3, from@, to@, i, rolls@[i]));
        }
        assert forall|i: int| 0 <= i < f implies (#[trigger] n3[from@[i] as int]).next@ == planned_exits(
            to@,
            aligned(i, f, t),
            fills@[i],
            rolls@[i],
        ) by {
            assert(branched_at(n2, n3, from@, to@, i, rolls@[i]));
            assert(n2[from@[i] as int].next@ == filled_exits(to@, aligned(i, f, t), fills@[i]));
        }
        assert(built_row(n3, from@, to@, fills@, rolls@));
    }
}

/// Rewiring against the state it produced holds too.
proof fn lemma_rewired_again(before: Seq<Node>, after: Seq<Node>, from: Seq<NodeId>, to: Seq<NodeId>)
    requires
        rewired(before, after, from, to),
    ensures
        rewired(after, after, from, to),
{
    assert forall|i: int| 0 <= i < from.len() implies same_but_exits(after[from[i] as int], #[trigger] after[from[i] as int])
        && wired_to(after[from[i] as int].next@, to, aligned(i, from.len() as int, to.len() as int)) by {
        assert(same_but_exits(before[from[i] as int], after[from[i] as int]));
    }
}

/// The three wiring steps compose.
proof fn lemma_rewired_chain(n0: Seq<Node>, n1: Seq<Node>, n2: Seq<Node>, n3: Seq<Node>, from: Seq<NodeId>, to: Seq<NodeId>)
    requires
        untouched_outside(n0, n1, from),
        untouched_outside(n1, n2, from),
        untouched_outside(n2, n3, from),
        rewired(n0, n1, from, to),
        rewired(n1, n2, from, to),
        rewired(n2, n3, from, to),
    ensures
        untouched_outside(n0, n3, from),
        rewired(n0, n3, from, to),
{
    assert forall|i: int| 0 <= i < from.len() implies same_but_exits(n0[from[i] as int], #[trigger] n3[from[i] as int])
        && wired_to(n3[from[i] as int].next@, to, aligned(i, from.len() as int, to.len() as int)) by {
        assert(same_but_exits(n0[from[i] as int], n1[from[i] as int]));
        assert(same_but_exits(n1[from[i] as int], n2[from[i] as int]));
        assert(same_but_exits(n2[from[i] as int], n3[from[i] as int]));
    }
    assert forall|id: int| 0 <= id < n0.len() && !from.contains(id as NodeId) implies #[trigger] n3[id] == n0[id] by {
        assert(n1[id] == n0[id]);
        assert(n2[id] == n1[id]);
    }
}

/// Wiring row `k`'s exits and nothing below it: every node below `k` has its
/// exits, none at or above `k` has any yet, and every node up to row `k` is
/// entered.
pub open spec fn wired_below(nodes: Seq<Node>, rows: Seq<Vec<NodeId>>, k: int) -> bool {
    &&& forall|id: int| 0 <= id < nodes.len() && nodes[id].row < k ==> #[trigger] exits_ok(nodes, rows.len() - 1, id)
    &&& forall|id: int| 0 <= id < nodes.len() && nodes[id].row >= k ==> (#[trigger] nodes[id]).next@.len() == 0
    &&& forall|id: int| 0 <= id < nodes.len() && 0 < nodes[id].row <= k ==> #[trigger] entered(nodes, id)
}

/// Below row `k`, every node has among its exits the node roughly above it:
/// column `c` of a row `f` wide leads to column `c * t / f` of the row
/// above, `t` wide.
pub open spec fn aligned_upto(nodes: Seq<Node>, rows: Seq<Vec<NodeId>>, k: int) -> bool {
    forall|r: int, c: int|
        0 <= r < k && 0 <= c < rows[r]@.len() ==> nodes[#[trigger] rows[r]@[c] as int].next@.contains(
            rows[r + 1]@[aligned(c, rows[r]@.len() as int, rows[r + 1]@.len() as int)],
        )
}

/// Rows laid out in ascending order of node id.
pub open spec fn ascending_rows(rows: Seq<Vec<NodeId>>) -> bool {
    forall|r: int, a: int, b: int| 0 <= r < rows.len() && 0 <= a < b < rows[r]@.len() ==> #[trigger] rows[r]@[a] < #[trigger] rows[r]@[b]
}

/// The kinds the rows get: the boss on the top row and nowhere else, fights
/// on the bottom row.
pub open spec fn kinds_placed(nodes: Seq<Node>, last: int) -> bool {
    &&& forall|id: int| 0 <= id < nodes.len() ==> ((#[trigger] nodes[id]).kind == NodeKind::Boss <==> nodes[id].row == last)
    &&& forall|id: int| 0 <= id < nodes.len() && (#[trigger] nodes[id]).row == 0 ==> nodes[id].kind == NodeKind::Fight
}

/// Rows `k` and `k + 1` of a laid-out map can be connected.
proof fn lemma_rows_connectable(nodes: Seq<Node>, rows: Seq<Vec<NodeId>>, k: int)
    requires
        shaped(rows),
        laid_out(nodes, rows),
        ascending_rows(rows),
        0 <= k < rows.len() - 1,
    ensures
        connectable(nodes, rows[k]@, rows[k + 1]@),
{
    let from = rows[k]@;
    let to = rows[k + 1]@;
    assert(2 <= from.len() <= 3);
    if k + 1 < rows.len() - 1 {
        assert(2 <= to.len() <= 3);
    } else {
        assert(to.len() == 1);
    }
    assert forall|a: int, b: int| 0 <= a < from.len() && 0 <= b < to.len() implies #[trigger] from[a] != #[trigger] to[b] by {
        assert(nodes[from[a] as int].row == k);
        assert(nodes[to[b] as int].row == k + 1);
    }
    assert forall|a: int, b: int| 0 <= a < b < from.len() implies #[trigger] from[a] != #[trigger] from[b] by {
        assert(rows[k]@[a] < rows[k]@[b]);
    }
    assert forall|a: int, b: int| 0 <= a < b < to.len() implies #[trigger] to[a] < #[trigger] to[b] by {
        assert(rows[k + 1]@[a] < rows[k + 1]@[b]);
    }
    assert forall|a: int| 0 <= a < from.len() implies (#[trigger] from[a]) < nodes.len() by {
        assert(rows[k]@[a] < nodes.len());
    }
    assert forall|b: int| 0 <= b < to.len() implies (#[trigger] to[b]) < nodes.len() by {
        assert(rows[k + 1]@[b] < nodes.len());
    }
}

/// Connecting row `k` to row `k + 1` advances the wiring by one row and
/// keeps the layout.
proof fn lemma_wire_step(before: Seq<Node>, after: Seq<Node>, rows: Seq<Vec<NodeId>>, k: int)
    requires
        shaped(rows),
        laid_out(before, rows),
        0 <= k < rows.len() - 1,
        wired_below(before, rows, k),
        aligned_upto(before, rows, k),
        connected(before, after, rows[k]@, rows[k + 1]@),
    ensures
        forall|id: int| 0 <= id < before.len() ==> #[trigger] same_but_exits(before[id], after[id]),
        laid_out(after, rows),
        wired_below(after, rows, k + 1),
        aligned_upto(after, rows, k + 1),
{
    let from = rows[k]@;
    let to = rows[k + 1]@;
    let last = rows.len() - 1;
    assert forall|id: int| 0 <= id < before.len() implies #[trigger] same_but_exits(before[id], after[id]) by {
        if from.contains(id as NodeId) {
            let a = choose|a: int| 0 <= a < from.len() && from[a] == id as NodeId;
            assert(same_but_exits(before[from[a] as int], after[from[a] as int]));
        } else {
            assert(after[id] == before[id]);
        }
    }
    assert forall|id: int| 0 <= id < before.len() && before[id].row != k implies #[trigger] after[id] == before[id] by {
        if from.contains(id as NodeId) {
            let a = choose|a: int| 0 <= a < from.len() && from[a] == id as NodeId;
            assert(before[from[a] as int].row == k);
        }
    }
    assert(laid_out(after, rows)) by {
        assert forall|r: int, c: int| 0 <= r < rows.len() && 0 <= c < rows[r]@.len() implies {
            let id = #[trigger] rows[r]@[c];
            &&& id < after.len()
            &&& after[id as int].row == r
            &&& after[id as int].col == c
        } by {
            let id = rows[r]@[c];
            assert(same_but_exits(before[id as int], after[id as int]));
        }
        assert forall|id: int| 0 <= id < after.len() implies {
            let n = #[trigger] after[id];
            &&& n.id == id
            &&& n.row < rows.len()
            &&& n.col < rows[n.row as int]@.len()
            &&& rows[n.row as int]@[n.col as int] == id
        } by {
            assert(same_but_exits(before[id], after[id]));
        }
    }
    assert forall|id: int| 0 <= id < after.len() && after[id].row < k + 1 implies #[trigger] exits_ok(after, last, id) by {
        assert(same_but_exits(before[id], after[id]));
        let nx = after[id].next@;
        if before[id].row < k {
            assert(after[id] == before[id]);
            assert(exits_ok(before, last, id));
            assert forall|q: int| 0 <= q < nx.len() implies (#[trigger] nx[q]) < after.len() && after[nx[q] as int].row == after[id].row + 1 by {
                assert(nx[q] < before.len());
                assert(same_but_exits(before[nx[q] as int], after[nx[q] as int]));
            }
        } else {
            let c = before[id].col as int;
            assert(from[c] == id as NodeId);
            assert(wired_to(after[from[c] as int].next@, to, aligned(c, from.len() as int, to.len() as int)));
            assert forall|q: int| 0 <= q < nx.len() implies (#[trigger] nx[q]) < after.len() && after[nx[q] as int].row == after[id].row + 1 by {
                assert(to.contains(nx[q]));
                let b = choose|b: int| 0 <= b < to.len() && to[b] == nx[q];
                assert(rows[k + 1]@[b] == nx[q]);
                assert(nx[q] < before.len());
                assert(same_but_exits(before[nx[q] as int], after[nx[q] as int]));
            }
        }
    }
    assert forall|id: int| 0 <= id < after.len() && after[id].row >= k + 1 implies (#[trigger] after[id]).next@.len() == 0 by {
        assert(same_but_exits(before[id], after[id]));
        assert(after[id] == before[id]);
    }
    assert forall|r: int, c: int|
        0 <= r < k + 1 && 0 <= c < rows[r]@.len() implies after[#[trigger] rows[r]@[c] as int].next@.contains(
            rows[r + 1]@[aligned(c, rows[r]@.len() as int, rows[r + 1]@.len() as int)],
        ) by {
        let id = rows[r]@[c] as int;
        assert(before[id].row == r);
        if r < k {
            assert(after[id] == before[id]);
        } else {
            assert(from[c] == id as NodeId);
            assert(wired_to(after[from[c] as int].next@, to, aligned(c, from.len() as int, to.len() as int)));
        }
    }
    assert forall|id: int| 0 <= id < after.len() && 0 < after[id].row <= k + 1 implies #[trigger] entered(after, id) by {
        assert(same_but_exits(before[id], after[id]));
        if after[id].row <= k {
            assert(entered(before, id));
            let p = choose|p: int| 0 <= p < before.len() && before[p].row + 1 == before[id].row && (#[trigger] before[p].next@).contains(id as NodeId);
            assert(after[p] == before[p]);
            assert(after[p].next@.contains(id as NodeId));
        } else {
            let c = before[id].col as int;
            assert(to[c] == id as NodeId);
            assert(enters(after, from, to[c]));
            let i = choose|i: int| 0 <= i < from.len() && (#[trigger] after[from[i] as int].next@).contains(to[c]);
            let p = from[i] as int;
            assert(before[p].row == k);
            assert(same_but_exits(before[p], after[p]));
            assert(after[p].next@.contains(id as NodeId));
        }
    }
}

/// Lay out `rows` rows of unwired nodes: the top row the boss alone, every
/// other row two or three wide, fights on the bottom row and weighted rolls
/// in between.
fn lay_out(rows: usize, rng: &mut StdRng) -> (r: (Vec<Node>, Vec<Vec<NodeId>>))
    requires
        rows >= 2,
    ensures
        r.1@.len() == rows,
        shaped(r.1@),
        laid_out(r.0@, r.1@),
        ascending_rows(r.1@),
        kinds_placed(r.0@, rows - 1),
        forall|id: int| 0 <= id < r.0@.len() ==> (#[trigger] r.0@[id]).next@.len() == 0,
{
    let mut nodes: Vec<Node> = Vec::new();
    let mut row_ids: Vec<Vec<NodeId>> = Vec::new();
    let mut row: usize = 0;
    while row < rows
        invariant
            rows >= 2,
            row <= rows,
            row_ids@.len() == row,
            laid_out(nodes@, row_ids@),
            ascending_rows(row_ids@),
            forall|r: int| 0 <= r < row && r < rows - 1 ==> 2 <= (#[trigger] row_ids@[r]@).len() <= 3,
            row == rows ==> row_ids@[rows - 1]@.len() == 1,
            kinds_placed(nodes@, rows - 1),
            forall|id: int| 0 <= id < nodes@.len() ==> (#[trigger] nodes@[id]).next@.len() == 0,
        decreases rows - row,
    {
        // Only the boss row is a single node. The bottom row branches too, so
        // the player chooses where to begin -- and so no node ever needs more
        // than two exits to cover the row above it.
        let width = if row == rows - 1 {
            1
        } else {
            random_inclusive(rng, 2, 3)
        };
        let start = nodes.len();
        let mut ids: Vec<NodeId> = Vec::new();
        proof {
            assert(laid_out(nodes@, row_ids@.push(ids))) by {
                let rs = row_ids@.push(ids);
                assert forall|r: int, c: int| 0 <= r < rs.len() && 0 <= c < rs[r]@.len() implies {
                    let id = #[trigger] rs[r]@[c];
                    &&& id < nodes@.len()
                    &&& nodes@[id as int].row == r
                    &&& nodes@[id as int].col == c
                } by {
                    assert(rs[r] == row_ids@[r]);
                }
                assert forall|id: int| 0 <= id < nodes@.len() implies {
                    let n = #[trigger] nodes@[id];
                    &&& n.id == id
                    &&& n.row < rs.len()
                    &&& n.col < rs[n.row as int]@.len()
                    &&& rs[n.row as int]@[n.col as int] == id
                } by {
                    let n = nodes@[id];
                    assert(rs[n.row as int] == row_ids@[n.row as int]);
                }
            }
        }
        let mut col: usize = 0;
        while col < width
            invariant
                rows >= 2,
                row < rows,
                row_ids@.len() == row,
                1 <= width <= 3,
                col <= width,
                ids@.len() == col,
                nodes@.len() == start + col,
                forall|c: int| 0 <= c < col ==> #[trigger] ids@[c] == start + c,
                laid_out(nodes@, row_ids@.push(ids)),
                ascending_rows(row_ids@),
                kinds_placed(nodes@, rows - 1),
                forall|id: int| 0 <= id < nodes@.len() ==> (#[trigger] nodes@[id]).next@.len() == 0,
            decreases width - col,
        {
            let kind = if row == rows - 1 {
                NodeKind::Boss
            } else if row == 0 {
                NodeKind::Fight
            } else {
                kind_for_roll(random_below(rng, 0, 100))
            };
            let id = nodes.len();
            let ghost ns0 = nodes@;
            let ghost ids0 = ids@;
            let ghost ids_vec = ids;
            nodes.push(Node { id, kind, row, col, next: Vec::new() });
            ids.push(id);
            proof {
                let ns = nodes@;
                let rs0 = row_ids@.push(ids_vec);
                let rs = row_ids@.push(ids);
                assert(laid_out(ns, rs)) by {
                    assert forall|r: int, c: int| 0 <= r < rs.len() && 0 <= c < rs[r]@.len() implies {
                        let x = #[trigger] rs[r]@[c];
                        &&& x < ns.len()
                        &&& ns[x as int].row == r
                        &&& ns[x as int].col == c
                    } by {
                        if r < row {
                            assert(rs[r] == rs0[r]);
                            assert(rs0[r]@[c] < ns0.len());
                            assert(ns[rs[r]@[c] as int] == ns0[rs[r]@[c] as int]);
                        } else if c < col {
                            assert(rs[r]@[c] == ids0[c]);
                            assert(rs0[r]@[c] == ids0[c]);
                            assert(ns[ids0[c] as int] == ns0[ids0[c] as int]);
                        } else {
                            assert(rs[r]@[c] == id);
                        }
                    }
                    assert forall|x: int| 0 <= x < ns.len() implies {
                        let n = #[trigger] ns[x];
                        &&& n.id == x
                        &&& n.row < rs.len()
                        &&& n.col < rs[n.row as int]@.len()
                        &&& rs[n.row as int]@[n.col as int] == x
                    } by {
                        if x < ns0.len() {
                            let n = ns0[x];
                            assert(ns[x] == n);
                            if n.row < row {
                                assert(rs[n.row as int] == rs0[n.row as int]);
                            } else {
                                assert(rs0[n.row as int]@ == ids0);
                                assert(rs[n.row as int]@ == ids@);
                                assert(ids@[n.col as int] == ids0[n.col as int]);
                            }
                        } else {
                            assert(x == id);
                            assert(rs[row as int]@ == ids@);
                            assert(ids@[col as int] == id);
                        }
                    }
                }
                assert forall|x: int| 0 <= x < ns.len() implies (#[trigger] ns[x]).next@.len() == 0 by {
                    if x < ns0.len() {
                        assert(ns[x] == ns0[x]);
                    }
                }
                assert(kinds_placed(ns, rows - 1)) by {
                    assert forall|x: int| 0 <= x < ns.len() implies ((#[trigger] ns[x]).kind == NodeKind::Boss <==> ns[x].row == rows - 1) by {
                        if x < ns0.len() {
                            assert(ns[x] == ns0[x]);
                        }
                    }
                    assert forall|x: int| 0 <= x < ns.len() && (#[trigger] ns[x]).row == 0 implies ns[x].kind == NodeKind::Fight by {
                        if x < ns0.len() {
                            assert(ns[x] == ns0[x]);
                        }
                    }
                }
                assert forall|c: int| 0 <= c < col + 1 implies #[trigger] ids@[c] == start + c by {
                    if c < col {
                        assert(ids@[c] == ids0[c]);
                    }
                }
            }
            col = col + 1;
        }
        let ghost rs_before = row_ids@;
        row_ids.push(ids);
        proof {
            let rs = row_ids@;
            assert(rs =~= rs_before.push(ids));
            assert forall|r: int, a: int, b: int| 0 <= r < rs.len() && 0 <= a < b < rs[r]@.len() implies #[trigger] rs[r]@[a] < #[trigger] rs[r]@[b] by {
                if r < row {
                    assert(rs[r] == rs_before[r]);
                } else {
                    assert(rs[r]@ == ids@);
                    assert(ids@[a] == start + a);
                    assert(ids@[b] == start + b);
                }
            }
            assert forall|r: int| 0 <= r < row + 1 && r < rows - 1 implies 2 <= (#[trigger] rs[r]@).len() <= 3 by {
                if r < row {
                    assert(rs[r] == rs_before[r]);
                }
            }
        }
        row = row + 1;
    }
    (nodes, row_ids)
}

/// A row stays built while the exits of its nodes stay as they were.
proof fn lemma_row_built_kept(before: Seq<Node>, after: Seq<Node>, from: Seq<NodeId>, to: Seq<NodeId>)
    requires
        row_built(before, from, to),
        forall|i: int| 0 <= i < from.len() ==> (#[trigger] after[from[i] as int]).next@ == before[from[i] as int].next@,
    ensures
        row_built(after, from, to),
{
    let (fills, rolls) = choose|fills: Seq<Option<int>>, rolls: Seq<Option<i32>>| #[trigger] built_row(before, from, to, fills, rolls);
    assert forall|i: int| 0 <= i < from.len() implies (#[trigger] after[from[i] as int]).next@ == planned_exits(
        to,
        aligned(i, from.len() as int, to.len() as int),
        fills[i],
        rolls[i],
    ) by {
        assert(before[from[i] as int].next@ == planned_exits(
            to,
            aligned(i, from.len() as int, to.len() as int),
            fills[i],
            rolls[i],
        ));
    }
    assert(built_row(after, from, to, fills, rolls));
}

/// What `generate` promises of a map: it is well formed, its bottom row is
/// all fights, every node has among its exits the node roughly above it, and
/// every row is wired as the three steps of wiring build it.
pub open spec fn generated(m: RunMap) -> bool {
    &&& m.wf()
    &&& forall|id: int| 0 <= id < m.nodes@.len() && (#[trigger] m.nodes@[id]).row == 0 ==> m.nodes@[id].kind == NodeKind::Fight
    &&& aligned_upto(m.nodes@, m.rows@, m.rows@.len() - 1)
    &&& forall|k: int| 0 <= k < m.rows@.len() - 1 ==> #[trigger] row_built(m.nodes@, m.rows@[k]@, m.rows@[k + 1]@)
}

/// Generate a map with `rows` rows (at least two). The bottom row offers a
/// choice of starting nodes; the top row is the single boss node.
pub fn generate(rows: usize, rng: &mut StdRng) -> (m: RunMap)
    ensures
        m.wf(),
        m.rows@.len() == (if rows < 2 {
            2
        } else {
            rows
        }),
        generated(m),
{
    let rows = if rows < 2 {
        2
    } else {
        rows
    };
    let (mut nodes, row_ids) = lay_out(rows, rng);
    let mut k: usize = 0;
    proof {
        assert forall|id: int| 0 <= id < nodes@.len() && 0 < nodes@[id].row <= 0 implies #[trigger] entered(nodes@, id) by {}
    }
    while k < rows - 1
        invariant
            rows >= 2,
            k <= rows - 1,
            row_ids@.len() == rows,
            shaped(row_ids@),
            laid_out(nodes@, row_ids@),
            ascending_rows(row_ids@),
            kinds_placed(nodes@, rows - 1),
            wired_below(nodes@, row_ids@, k as int),
            aligned_upto(nodes@, row_ids@, k as int),
            forall|r: int| 0 <= r < k ==> #[trigger] row_built(nodes@, row_ids@[r]@, row_ids@[r + 1]@),
        decreases rows - 1 - k,
    {
        let ghost before = nodes@;
        proof {
            lemma_rows_connectable(nodes@, row_ids@, k as int);
        }
        connect(&mut nodes, &row_ids[k], &row_ids[k + 1], rng);
        proof {
            lemma_wire_step(before, nodes@, row_ids@, k as int);
            let after = nodes@;
            assert forall|id: int| 0 <= id < after.len() implies ((#[trigger] after[id]).kind == NodeKind::Boss <==> after[id].row == rows - 1) by {
                assert(same_but_exits(before[id], after[id]));
            }
            assert forall|id: int| 0 <= id < after.len() && (#[trigger] after[id]).row == 0 implies after[id].kind == NodeKind::Fight by {
                assert(same_but_exits(before[id], after[id]));
            }
            assert forall|r: int| 0 <= r < k + 1 implies #[trigger] row_built(after, row_ids@[r]@, row_ids@[r + 1]@) by {
                if r < k {
                    let from = row_ids@[r]@;
                    assert forall|i: int| 0 <= i < from.len() implies (#[trigger] after[from[i] as int]).next@
                        == before[from[i] as int].next@ by {
                        let id = from[i];
                        assert(before[id as int].row == r);
                        assert(!row_ids@[k as int]@.contains(id)) by {
                            if row_ids@[k as int]@.contains(id) {
                                let c = choose|c: int| 0 <= c < row_ids@[k as int]@.len() && row_ids@[k as int]@[c] == id;
                                assert(before[row_ids@[k as int]@[c] as int].row == k);
                            }
                        }
                        assert(after[id as int] == before[id as int]);
                    }
                    lemma_row_built_kept(before, after, from, row_ids@[r + 1]@);
                }
            }
        }
        k = k + 1;
    }
    let m = RunMap { nodes, rows: row_ids };
    proof {
        let ns = m.nodes@;
        let last = m.last_row();
        assert forall|id: int| 0 <= id < ns.len() implies #[trigger] exits_ok(ns, last, id) by {
            if ns[id].row >= rows - 1 {
                assert(ns[id].next@.len() == 0);
            }
        }
        assert forall|id: int| 0 <= id < ns.len() && ns[id].row > 0 implies #[trigger] entered(ns, id) by {
            assert(ns[id].row < rows);
        }
        assert forall|id: int| 0 <= id < ns.len() implies ((#[trigger] ns[id]).kind == NodeKind::Boss <==> ns[id].row == last) by {}
    }
    m
}

} // verus!
