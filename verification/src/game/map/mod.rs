//! The run map: a branching directed graph of nodes, climbed bottom to top.

pub mod generate;

pub use generate::{generate, generated};

use vstd::prelude::*;

verus! {

pub type NodeId = usize;

#[derive(Debug, Clone, Copy, PartialEq, Eq, Structural)]
pub enum NodeKind {
    Fight,
    Event,
    Shop,
    Boss,
}

impl NodeKind {
    pub open spec fn glyph_spec(self) -> char {
        match self {
            NodeKind::Fight => '⚔',
            NodeKind::Event => '?',
            NodeKind::Shop => '$',
            NodeKind::Boss => '☠',
        }
    }

    /// Single-character map glyph.
    pub fn glyph(self) -> (c: char)
        ensures
            c == self.glyph_spec(),
    {
        match self {
            NodeKind::Fight => '⚔',
            NodeKind::Event => '?',
            NodeKind::Shop => '$',
            NodeKind::Boss => '☠',
        }
    }

    pub open spec fn label_view(self) -> Seq<char> {
        match self {
            NodeKind::Fight => "Fight"@,
            NodeKind::Event => "Event"@,
            NodeKind::Shop => "Shop"@,
            NodeKind::Boss => "Boss"@,
        }
    }

    pub fn label(self) -> (s: &'static str)
        ensures
            s@ == self.label_view(),
    {
        match self {
            NodeKind::Fight => "Fight",
            NodeKind::Event => "Event",
            NodeKind::Shop => "Shop",
            NodeKind::Boss => "Boss",
        }
    }
}

#[derive(Debug, Clone)]
pub struct Node {
    pub id: NodeId,
    pub kind: NodeKind,
    pub row: usize,
    /// Position within its row, used only for drawing.
    pub col: usize,
    /// Nodes reachable from here, all in the next row up.
    pub next: Vec<NodeId>,
}

#[derive(Debug, Clone)]
pub struct RunMap {
    pub nodes: Vec<Node>,
    /// Node ids grouped by row, bottom row first.
    pub rows: Vec<Vec<NodeId>>,
}

/// Every node sits where the rows say it does, and every row entry names
/// the node that sits there.
pub open spec fn laid_out(nodes: Seq<Node>, rows: Seq<Vec<NodeId>>) -> bool {
    &&& forall|r: int, c: int|
        0 <= r < rows.len() && 0 <= c < rows[r]@.len() ==> {
            let id = #[trigger] rows[r]@[c];
            &&& id < nodes.len()
            &&& nodes[id as int].row == r
            &&& nodes[id as int].col == c
        }
    &&& forall|id: int|
        0 <= id < nodes.len() ==> {
            let n = #[trigger] nodes[id];
            &&& n.id == id
            &&& n.row < rows.len()
            &&& n.col < rows[n.row as int]@.len()
            &&& rows[n.row as int]@[n.col as int] == id
        }
}

/// The shape of the rows: at least two; the bottom one offers a choice, the
/// top one is the boss alone, and every other row is two or three wide.
pub open spec fn shaped(rows: Seq<Vec<NodeId>>) -> bool {
    &&& rows.len() >= 2
    &&& rows[rows.len() - 1]@.len() == 1
    &&& forall|r: int| 0 <= r < rows.len() - 1 ==> 2 <= (#[trigger] rows[r]@).len() <= 3
}

/// The exits of node `id`: one or two when below the top row, none on it,
/// each one row up, in ascending order.
pub open spec fn exits_ok(nodes: Seq<Node>, last: int, id: int) -> bool {
    let n = nodes[id];
    let nx = n.next@;
    &&& (n.row == last ==> nx.len() == 0)
    &&& (n.row < last ==> 1 <= nx.len() <= 2)
    &&& forall|k: int| 0 <= k < nx.len() ==> (#[trigger] nx[k]) < nodes.len() && nodes[nx[k] as int].row == n.row + 1
    &&& forall|a: int, b: int| 0 <= a < b < nx.len() ==> #[trigger] nx[a] < #[trigger] nx[b]
}

/// Some node one row below `id` points at it.
pub open spec fn entered(nodes: Seq<Node>, id: int) -> bool {
    exists|p: int| 0 <= p < nodes.len() && nodes[p].row + 1 == nodes[id].row && (#[trigger] nodes[p].next@).contains(id as NodeId)
}

/// A list of nodes, each an exit of the one before.
pub open spec fn is_path(nodes: Seq<Node>, p: Seq<NodeId>) -> bool {
    &&& p.len() >= 1
    &&& forall|i: int| 0 <= i < p.len() ==> (#[trigger] p[i]) < nodes.len()
    &&& forall|i: int| 0 <= i < p.len() - 1 ==> (#[trigger] nodes[p[i] as int].next@).contains(p[i + 1])
}

impl RunMap {
    pub open spec fn last_row(self) -> int {
        self.rows@.len() - 1
    }

    /// The map's invariant: laid out by rows of the right shape, a boss on
    /// the top row and nowhere else, every node's exits one row up, and
    /// every node above the bottom row entered from below.
    pub open spec fn wf(self) -> bool {
        let nodes = self.nodes@;
        let rows = self.rows@;
        &&& shaped(rows)
        &&& laid_out(nodes, rows)
        &&& forall|id: int| 0 <= id < nodes.len() ==> ((#[trigger] nodes[id]).kind == NodeKind::Boss <==> nodes[id].row == self.last_row())
        &&& forall|id: int| 0 <= id < nodes.len() ==> #[trigger] exits_ok(nodes, self.last_row(), id)
        &&& forall|id: int| 0 <= id < nodes.len() && nodes[id].row > 0 ==> #[trigger] entered(nodes, id)
    }

    /// The boss: the one node of the top row.
    pub open spec fn boss_id(self) -> NodeId {
        self.rows@[self.rows@.len() - 1]@[0]
    }

    /// Whether `b` can be reached from `a` by following exits.
    pub open spec fn reaches(self, a: NodeId, b: NodeId) -> bool {
        exists|p: Seq<NodeId>| #[trigger] is_path(self.nodes@, p) && p[0] == a && p[p.len() - 1] == b
    }

    pub fn node(&self, id: NodeId) -> (n: &Node)
        requires
            id < self.nodes@.len(),
        ensures
            *n == self.nodes@[id as int],
    {
        &self.nodes[id]
    }

    pub fn start(&self) -> (id: NodeId)
        requires
            self.rows@.len() > 0,
            self.rows@[0]@.len() > 0,
        ensures
            id == self.rows@[0]@[0],
    {
        self.rows[0][0]
    }

    pub fn boss(&self) -> (id: NodeId)
        requires
            self.rows@.len() > 0,
            self.rows@[self.rows@.len() - 1]@.len() > 0,
        ensures
            id == self.boss_id(),
    {
        let last = self.rows.len() - 1;
        self.rows[last][0]
    }

    pub fn row_count(&self) -> (n: usize)
        ensures
            n == self.rows@.len(),
    {
        self.rows.len()
    }

    /// Difficulty budget for encounters at this depth: two per row above
    /// the bottom plus two, at most 255.
    pub fn budget_for_row(&self, row: usize) -> (b: u8)
        requires
            2 + 2 * row <= usize::MAX,
        ensures
            b == budget_spec(row as int),
    {
        let raw = 2 + row * 2;
        if raw < 255 {
            raw as u8
        } else {
            255
        }
    }
}

/// The encounter budget of a row: two plus two per row, capped at 255.
pub open spec fn budget_spec(row: int) -> int {
    if 2 + 2 * row < 255 {
        2 + 2 * row
    } else {
        255
    }
}

/// The deeper the row, the bigger the encounter budget, until it caps.
pub proof fn lemma_budget_grows_with_depth(shallow: int, deep: int)
    requires
        0 <= shallow <= deep,
    ensures
        budget_spec(shallow) <= budget_spec(deep),
        shallow < deep && budget_spec(deep) < 255 ==> budget_spec(shallow) < budget_spec(deep),
{
}

/// Every node of a well-formed map can be reached from the bottom row: no
/// node is stranded.
pub proof fn lemma_every_node_reachable_from_the_start(m: RunMap, id: NodeId)
    requires
        m.wf(),
        id < m.nodes@.len(),
    ensures
        exists|s: NodeId| #![trigger m.reaches(s, id)] m.rows@[0]@.contains(s) && m.reaches(s, id),
    decreases m.nodes@[id as int].row,
{
    let nodes = m.nodes@;
    let n = nodes[id as int];
    assert(laid_out(nodes, m.rows@));
    if n.row == 0 {
        let p = seq![id];
        assert(is_path(nodes, p));
        assert(m.rows@[0]@[n.col as int] == id);
        assert(m.rows@[0]@.contains(id));
        assert(m.reaches(id, id));
    } else {
        assert(entered(nodes, id as int));
        let q = choose|q: int| 0 <= q < nodes.len() && nodes[q].row + 1 == nodes[id as int].row && (#[trigger] nodes[q].next@).contains(id as NodeId);
        lemma_every_node_reachable_from_the_start(m, q as NodeId);
        let s = choose|s: NodeId| #![trigger m.reaches(s, q as NodeId)] m.rows@[0]@.contains(s) && m.reaches(s, q as NodeId);
        let p0 = choose|p: Seq<NodeId>| #[trigger] is_path(nodes, p) && p[0] == s && p[p.len() - 1] == q as NodeId;
        let p = p0.push(id);
        assert(is_path(nodes, p)) by {
            assert forall|i: int| 0 <= i < p.len() implies (#[trigger] p[i]) < nodes.len() by {
                if i < p0.len() {
                    assert(p[i] == p0[i]);
                }
            }
            assert forall|i: int| 0 <= i < p.len() - 1 implies (#[trigger] nodes[p[i] as int].next@).contains(p[i + 1]) by {
                if i < p0.len() - 1 {
                    assert(p[i] == p0[i] && p[i + 1] == p0[i + 1]);
                } else {
                    assert(p[i] == q && p[i + 1] == id);
                }
            }
        }
        assert(m.reaches(s, id));
    }
}

/// The boss can be reached from every node of a well-formed map: no path
/// dead-ends below the top.
pub proof fn lemma_boss_reachable_from_every_node(m: RunMap, id: NodeId)
    requires
        m.wf(),
        id < m.nodes@.len(),
    ensures
        m.reaches(id, m.boss_id()),
    decreases m.last_row() - m.nodes@[id as int].row,
{
    let nodes = m.nodes@;
    let n = nodes[id as int];
    assert(laid_out(nodes, m.rows@));
    assert(exits_ok(nodes, m.last_row(), id as int));
    if n.row == m.last_row() {
        let p = seq![id];
        assert(is_path(nodes, p));
        assert(m.rows@[n.row as int]@[n.col as int] == id);
    } else {
        let nx = n.next@;
        let t = nx[0];
        assert(nodes[t as int].row == n.row + 1);
        lemma_boss_reachable_from_every_node(m, t);
        let q = choose|p: Seq<NodeId>| #[trigger] is_path(nodes, p) && p[0] == t && p[p.len() - 1] == m.boss_id();
        let p = seq![id] + q;
        assert(is_path(nodes, p)) by {
            assert forall|i: int| 0 <= i < p.len() implies (#[trigger] p[i]) < nodes.len() by {
                if i > 0 {
                    assert(p[i] == q[i - 1]);
                }
            }
            assert forall|i: int| 0 <= i < p.len() - 1 implies (#[trigger] nodes[p[i] as int].next@).contains(p[i + 1]) by {
                if i == 0 {
                    assert(p[1] == t);
                    assert(nx[0] == t);
                } else {
                    assert(p[i] == q[i - 1] && p[i + 1] == q[i]);
                }
            }
        }
        assert(p[p.len() - 1] == q[q.len() - 1]);
        assert(m.reaches(id, m.boss_id()));
    }
}

/// Every exit of every node of a well-formed map leads exactly one row up.
pub proof fn lemma_edges_go_one_row_up(m: RunMap, id: NodeId, k: int)
    requires
        m.wf(),
        id < m.nodes@.len(),
        0 <= k < m.nodes@[id as int].next@.len(),
    ensures
        m.nodes@[id as int].next@[k] < m.nodes@.len(),
        m.nodes@[m.nodes@[id as int].next@[k] as int].row == m.nodes@[id as int].row + 1,
{
    assert(exits_ok(m.nodes@, m.last_row(), id as int));
}

/// No node of a well-formed map has more than two exits.
pub proof fn lemma_at_most_two_exits(m: RunMap, id: NodeId)
    requires
        m.wf(),
        id < m.nodes@.len(),
    ensures
        m.nodes@[id as int].next@.len() <= 2,
{
    assert(exits_ok(m.nodes@, m.last_row(), id as int));
}

/// The boss of a well-formed map is the only node of the top row, is of
/// kind `Boss`, and no other node is; the bottom row offers a choice.
pub proof fn lemma_boss_row(m: RunMap, id: NodeId)
    requires
        m.wf(),
        id < m.nodes@.len(),
    ensures
        m.rows@[m.last_row()]@.len() == 1,
        m.rows@[0]@.len() >= 2,
        m.boss_id() < m.nodes@.len(),
        m.nodes@[m.boss_id() as int].kind == NodeKind::Boss,
        m.nodes@[id as int].kind == NodeKind::Boss <==> id == m.boss_id(),
{
    let nodes = m.nodes@;
    let rows = m.rows@;
    let last = m.last_row();
    assert(laid_out(nodes, rows));
    assert(2 <= rows[0]@.len());
    let b = rows[last]@[0];
    assert(b < nodes.len() && nodes[b as int].row == last);
    assert(nodes[b as int].kind == NodeKind::Boss);
    let n = nodes[id as int];
    if n.row == last {
        assert(rows[n.row as int]@[n.col as int] == id);
    }
}

} // verus!
