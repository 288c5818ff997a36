//! Status effects. Deliberately shallow -- the depth in this game comes from
//! combination, not from status bookkeeping.

use vstd::prelude::*;
use vstd::std_specs::iter::IteratorSpec;

verus! {

#[derive(Debug, Clone, Copy, PartialEq, Eq, PartialOrd, Ord, Hash, Structural)]
pub enum Status {
    /// Damage at end of round.
    Burned,
    /// Incoming Shock damage is doubled.
    Wet,
    /// Skips its next turn.
    Frozen,
    /// Its attacks deal half damage.
    Blind,
    /// Damage at end of round, less than a burn's.
    Poisoned,
}

/// How many statuses there are.
pub const STATUS_COUNT: usize = 5;

impl Status {
    /// Position in declaration order; statuses are kept sorted by it.
    pub open spec fn rank(self) -> nat {
        match self {
            Status::Burned => 0,
            Status::Wet => 1,
            Status::Frozen => 2,
            Status::Blind => 3,
            Status::Poisoned => 4,
        }
    }

    pub open spec fn at_rank(i: nat) -> Status {
        if i == 0 {
            Status::Burned
        } else if i == 1 {
            Status::Wet
        } else if i == 2 {
            Status::Frozen
        } else if i == 3 {
            Status::Blind
        } else {
            Status::Poisoned
        }
    }

    pub open spec fn name_view(self) -> Seq<char> {
        match self {
            Status::Burned => "Burned"@,
            Status::Wet => "Wet"@,
            Status::Frozen => "Frozen"@,
            Status::Blind => "Blind"@,
            Status::Poisoned => "Poisoned"@,
        }
    }

    /// Damage dealt at the end of each round while this status is active.
    pub open spec fn damage_per_round(self) -> nat {
        match self {
            Status::Burned => 2,
            Status::Poisoned => 1,
            _ => 0,
        }
    }

    pub fn name(self) -> (r: &'static str)
        ensures
            r@ == self.name_view(),
    {
        match self {
            Status::Burned => "Burned",
            Status::Wet => "Wet",
            Status::Frozen => "Frozen",
            Status::Blind => "Blind",
            Status::Poisoned => "Poisoned",
        }
    }

    /// Damage dealt at the end of each round while this status is active.
    pub fn tick_damage(self) -> (r: u16)
        ensures
            r == self.damage_per_round(),
    {
        match self {
            Status::Burned => 2,
            Status::Poisoned => 1,
            _ => 0,
        }
    }

    pub fn index(self) -> (r: usize)
        ensures
            r == self.rank(),
            r < STATUS_COUNT,
    {
        match self {
            Status::Burned => 0,
            Status::Wet => 1,
            Status::Frozen => 2,
            Status::Blind => 3,
            Status::Poisoned => 4,
        }
    }

    pub fn from_index(i: usize) -> (r: Status)
        requires
            i < STATUS_COUNT,
        ensures
            r == Status::at_rank(i as nat),
            r.rank() == i,
    {
        if i == 0 {
            Status::Burned
        } else if i == 1 {
            Status::Wet
        } else if i == 2 {
            Status::Frozen
        } else if i == 3 {
            Status::Blind
        } else {
            Status::Poisoned
        }
    }
}

/// A status currently on an entity, with its remaining duration in rounds.
#[derive(Debug, Clone, Copy, PartialEq, Eq, Structural)]
pub struct ActiveStatus {
    pub status: Status,
    pub rounds: u8,
}

/// Sorted strictly by status, and every entry still has rounds left.
pub open spec fn entries_wf(s: Seq<ActiveStatus>) -> bool {
    &&& forall|i: int, j: int|
        0 <= i < j < s.len() ==> #[trigger] s[i].status.rank() < #[trigger] s[j].status.rank()
    &&& forall|i: int| 0 <= i < s.len() ==> #[trigger] s[i].rounds > 0
}

/// Whether some entry carries `st`.
pub open spec fn holds(s: Seq<ActiveStatus>, st: Status) -> bool {
    exists|i: int| 0 <= i < s.len() && #[trigger] s[i].status == st
}

/// Remaining rounds of `st` (zero when absent).
pub open spec fn rounds_in(s: Seq<ActiveStatus>, st: Status) -> nat {
    if holds(s, st) {
        s[choose|i: int| 0 <= i < s.len() && #[trigger] s[i].status == st].rounds as nat
    } else {
        0
    }
}

/// `after` is `before` with its entry for `st` set to `r` rounds: that entry
/// sits at some index of `after`, and without it `after` is `before` without
/// its own entry for `st`, or all of `before` where it had none.
pub open spec fn refreshed(before: Seq<ActiveStatus>, after: Seq<ActiveStatus>, st: Status, r: u8) -> bool {
    exists|i: int|
        0 <= i < after.len() && after[i] == (ActiveStatus { status: st, rounds: r }) && #[trigger] after.remove(i)
            == if holds(before, st) {
            before.remove(i)
        } else {
            before
        } && (holds(before, st) ==> before[i].status == st)
}

/// Total end-of-round damage of a list of entries.
pub open spec fn tick_total(s: Seq<ActiveStatus>) -> nat
    decreases s.len(),
{
    if s.len() == 0 {
        0
    } else {
        tick_total(s.drop_last()) + s.last().status.damage_per_round()
    }
}

/// In a well-formed list, the entry for `st` is the one at any index holding it.
pub proof fn lemma_rounds_at(s: Seq<ActiveStatus>, i: int)
    requires
        entries_wf(s),
        0 <= i < s.len(),
    ensures
        holds(s, s[i].status),
        rounds_in(s, s[i].status) == s[i].rounds,
{
    let st = s[i].status;
    assert(s[i].status == st);
    let j = choose|j: int| 0 <= j < s.len() && #[trigger] s[j].status == st;
    if j != i {
        if j < i {
            assert(s[j].status.rank() < s[i].status.rank());
        } else {
            assert(s[i].status.rank() < s[j].status.rank());
        }
    }
}

/// `rounds_in` is positive exactly when the status is held.
pub proof fn lemma_rounds_positive(s: Seq<ActiveStatus>, st: Status)
    requires
        entries_wf(s),
    ensures
        rounds_in(s, st) > 0 <==> holds(s, st),
{
    if holds(s, st) {
        let i = choose|i: int| 0 <= i < s.len() && #[trigger] s[i].status == st;
        lemma_rounds_at(s, i);
    }
}

/// Two well-formed lists that agree on every status are the same list: the
/// order of entries is fixed by the statuses they hold.
pub proof fn lemma_entries_determined(a: Seq<ActiveStatus>, b: Seq<ActiveStatus>)
    requires
        entries_wf(a),
        entries_wf(b),
        forall|st: Status| #[trigger] rounds_in(a, st) == rounds_in(b, st),
    ensures
        a == b,
    decreases a.len() + b.len(),
{
    if a.len() == 0 {
        if b.len() > 0 {
            lemma_rounds_at(b, 0);
            assert(rounds_in(a, b[0].status) == rounds_in(b, b[0].status));
        }
        assert(a =~= b);
    } else if b.len() == 0 {
        lemma_rounds_at(a, 0);
        assert(rounds_in(a, a[0].status) == rounds_in(b, a[0].status));
    } else {
        let la = a.last();
        let lb = b.last();
        lemma_rounds_at(a, a.len() - 1);
        lemma_rounds_at(b, b.len() - 1);
        assert(rounds_in(a, la.status) == rounds_in(b, la.status));
        assert(rounds_in(a, lb.status) == rounds_in(b, lb.status));
        // la is held in b, so its rank is at most lb's, and vice versa.
        let ia = choose|i: int| 0 <= i < b.len() && #[trigger] b[i].status == la.status;
        let ib = choose|i: int| 0 <= i < a.len() && #[trigger] a[i].status == lb.status;
        if ia < b.len() - 1 {
            assert(b[ia].status.rank() < b[b.len() - 1].status.rank());
        }
        if ib < a.len() - 1 {
            assert(a[ib].status.rank() < a[a.len() - 1].status.rank());
        }
        assert(la.status.rank() == lb.status.rank());
        assert(la.status == lb.status);
        assert(la == lb);
        let a2 = a.drop_last();
        let b2 = b.drop_last();
        assert forall|st: Status| #[trigger] rounds_in(a2, st) == rounds_in(b2, st) by {
            lemma_rounds_drop_last(a, st);
            lemma_rounds_drop_last(b, st);
        }
        lemma_entries_determined(a2, b2);
        assert(a =~= a2.push(la));
        assert(b =~= b2.push(lb));
    }
}

/// Removing the last entry forgets exactly its status.
pub proof fn lemma_rounds_drop_last(s: Seq<ActiveStatus>, st: Status)
    requires
        entries_wf(s),
        s.len() > 0,
    ensures
        entries_wf(s.drop_last()),
        rounds_in(s.drop_last(), st) == if st == s.last().status {
            0
        } else {
            rounds_in(s, st)
        },
{
    let d = s.drop_last();
    assert forall|i: int, j: int| 0 <= i < j < d.len() implies #[trigger] d[i].status.rank()
        < #[trigger] d[j].status.rank() by {
        assert(d[i] == s[i] && d[j] == s[j]);
    }
    assert forall|i: int| 0 <= i < d.len() implies #[trigger] d[i].rounds > 0 by {
        assert(d[i] == s[i]);
    }
    if st == s.last().status {
        if holds(d, st) {
            let i = choose|i: int| 0 <= i < d.len() && #[trigger] d[i].status == st;
            assert(s[i].status.rank() < s[s.len() - 1].status.rank());
        }
    } else {
        if holds(s, st) {
            let i = choose|i: int| 0 <= i < s.len() && #[trigger] s[i].status == st;
            assert(i < s.len() - 1);
            assert(d[i] == s[i]);
            lemma_rounds_at(s, i);
            lemma_rounds_at(d, i);
        }
        if holds(d, st) {
            let i = choose|i: int| 0 <= i < d.len() && #[trigger] d[i].status == st;
            assert(s[i] == d[i]);
        }
    }
}

/// Refreshing the entry at `p` changes only its status's rounds.
proof fn lemma_refresh_entry(s: Seq<ActiveStatus>, p: int, r: u8)
    requires
        entries_wf(s),
        0 <= p < s.len(),
        r >= s[p].rounds,
    ensures
        entries_wf(s.update(p, ActiveStatus { status: s[p].status, rounds: r })),
        forall|st: Status| #[trigger]
            rounds_in(s.update(p, ActiveStatus { status: s[p].status, rounds: r }), st) == if st
                == s[p].status {
                r as nat
            } else {
                rounds_in(s, st)
            },
{
    let status = s[p].status;
    let t = s.update(p, ActiveStatus { status, rounds: r });
    assert forall|i: int, j: int| 0 <= i < j < t.len() implies #[trigger] t[i].status.rank()
        < #[trigger] t[j].status.rank() by {
        assert(s[i].status.rank() < s[j].status.rank());
    }
    assert forall|i: int| 0 <= i < t.len() implies #[trigger] t[i].rounds > 0 by {
        assert(s[i].rounds > 0);
    }
    assert forall|st: Status| #[trigger]
        rounds_in(t, st) == if st == status {
            r as nat
        } else {
            rounds_in(s, st)
        } by {
        lemma_rounds_at(t, p);
        if st != status {
            if holds(s, st) {
                let i = choose|i: int| 0 <= i < s.len() && #[trigger] s[i].status == st;
                assert(t[i] == s[i]);
                lemma_rounds_at(s, i);
                lemma_rounds_at(t, i);
            }
            if holds(t, st) {
                let i = choose|i: int| 0 <= i < t.len() && #[trigger] t[i].status == st;
                assert(t[i] == s[i]);
            }
        }
    }
}

/// Inserting a new status at its sorted position adds exactly that status.
proof fn lemma_insert_entry(s: Seq<ActiveStatus>, p: int, entry: ActiveStatus)
    requires
        entries_wf(s),
        0 <= p <= s.len(),
        entry.rounds > 0,
        forall|k: int| 0 <= k < p ==> #[trigger] s[k].status.rank() < entry.status.rank(),
        forall|k: int| p <= k < s.len() ==> #[trigger] s[k].status.rank() > entry.status.rank(),
    ensures
        !holds(s, entry.status),
        entries_wf(s.insert(p, entry)),
        forall|st: Status| #[trigger]
            rounds_in(s.insert(p, entry), st) == if st == entry.status {
                entry.rounds as nat
            } else {
                rounds_in(s, st)
            },
{
    let status = entry.status;
    let t = s.insert(p, entry);
    assert forall|i: int, j: int| 0 <= i < j < t.len() implies #[trigger] t[i].status.rank()
        < #[trigger] t[j].status.rank() by {
        if i < p && j < p {
            assert(t[i] == s[i] && t[j] == s[j]);
        } else if i < p && j == p {
            assert(t[i] == s[i]);
        } else if i < p {
            assert(t[i] == s[i] && t[j] == s[j - 1]);
        } else if i == p {
            assert(t[j] == s[j - 1]);
        } else {
            assert(t[i] == s[i - 1] && t[j] == s[j - 1]);
        }
    }
    assert forall|i: int| 0 <= i < t.len() implies #[trigger] t[i].rounds > 0 by {
        if i < p {
            assert(t[i] == s[i]);
        } else if i > p {
            assert(t[i] == s[i - 1]);
        }
    }
    if holds(s, status) {
        let i = choose|i: int| 0 <= i < s.len() && #[trigger] s[i].status == status;
        assert(false);
    }
    assert forall|st: Status| #[trigger]
        rounds_in(t, st) == if st == status {
            entry.rounds as nat
        } else {
            rounds_in(s, st)
        } by {
        lemma_rounds_at(t, p);
        if st != status {
            if holds(s, st) {
                let i = choose|i: int| 0 <= i < s.len() && #[trigger] s[i].status == st;
                lemma_rounds_at(s, i);
                if i < p {
                    assert(t[i] == s[i]);
                    lemma_rounds_at(t, i);
                } else {
                    assert(t[i + 1] == s[i]);
                    lemma_rounds_at(t, i + 1);
                }
            }
            if holds(t, st) {
                let i = choose|i: int| 0 <= i < t.len() && #[trigger] t[i].status == st;
                if i < p {
                    assert(t[i] == s[i]);
                } else {
                    assert(i != p);
                    assert(t[i] == s[i - 1]);
                }
            }
        }
    }
}

/// Removing the entry at `i` forgets exactly its status.
proof fn lemma_remove_entry(s: Seq<ActiveStatus>, i: int)
    requires
        entries_wf(s),
        0 <= i < s.len(),
    ensures
        entries_wf(s.remove(i)),
        forall|st: Status| #[trigger]
            rounds_in(s.remove(i), st) == if st == s[i].status {
                0
            } else {
                rounds_in(s, st)
            },
{
    let status = s[i].status;
    let t = s.remove(i);
    assert forall|a: int, b: int| 0 <= a < b < t.len() implies #[trigger] t[a].status.rank()
        < #[trigger] t[b].status.rank() by {
        if b < i {
            assert(t[a] == s[a] && t[b] == s[b]);
        } else if a < i {
            assert(t[a] == s[a] && t[b] == s[b + 1]);
        } else {
            assert(t[a] == s[a + 1] && t[b] == s[b + 1]);
        }
    }
    assert forall|a: int| 0 <= a < t.len() implies #[trigger] t[a].rounds > 0 by {
        if a < i {
            assert(t[a] == s[a]);
        } else {
            assert(t[a] == s[a + 1]);
        }
    }
    assert forall|st: Status| #[trigger]
        rounds_in(t, st) == if st == status {
            0
        } else {
            rounds_in(s, st)
        } by {
        if st == status {
            if holds(t, st) {
                let a = choose|a: int| 0 <= a < t.len() && #[trigger] t[a].status == st;
                if a < i {
                    assert(t[a] == s[a]);
                    assert(s[a].status.rank() < s[i].status.rank());
                } else {
                    assert(t[a] == s[a + 1]);
                    assert(s[i].status.rank() < s[a + 1].status.rank());
                }
            }
        } else {
            if holds(s, st) {
                let a = choose|a: int| 0 <= a < s.len() && #[trigger] s[a].status == st;
                lemma_rounds_at(s, a);
                if a < i {
                    assert(t[a] == s[a]);
                    lemma_rounds_at(t, a);
                } else {
                    assert(a != i);
                    assert(t[a - 1] == s[a]);
                    lemma_rounds_at(t, a - 1);
                }
            }
            if holds(t, st) {
                let a = choose|a: int| 0 <= a < t.len() && #[trigger] t[a].status == st;
                if a < i {
                    assert(t[a] == s[a]);
                } else {
                    assert(t[a] == s[a + 1]);
                }
            }
        }
    }
}

/// An element-by-element copy of a list of entries.
fn copy_entries(v: &Vec<ActiveStatus>) -> (r: Vec<ActiveStatus>)
    ensures
        r@ == v@,
{
    let mut r: Vec<ActiveStatus> = Vec::new();
    let n = v.len();
    let mut i: usize = 0;
    while i < n
        invariant
            n == v@.len(),
            i <= n,
            r@ == v@.take(i as int),
        decreases n - i,
    {
        r.push(v[i]);
        proof {
            assert(r@ =~= v@.take(i + 1));
        }
        i = i + 1;
    }
    proof {
        assert(v@.take(n as int) =~= v@);
    }
    r
}

/// The set of statuses on one entity.
///
/// Kept sorted by `Status`, so iteration order is deterministic.
#[derive(Debug, Clone, PartialEq, Eq)]
pub struct Statuses(Vec<ActiveStatus>);

impl Default for Statuses {
    fn default() -> (r: Self)
        ensures
            r@ == Seq::<ActiveStatus>::empty(),
    {
        Statuses::new()
    }
}

impl View for Statuses {
    type V = Seq<ActiveStatus>;

    closed spec fn view(&self) -> Seq<ActiveStatus> {
        self.0@
    }
}

impl Statuses {
    /// Sorted by status, one entry per status, none expired.
    pub open spec fn wf(self) -> bool {
        entries_wf(self@)
    }

    /// Remaining rounds of `st` on this entity (zero when absent).
    pub open spec fn rounds(self, st: Status) -> nat {
        rounds_in(self@, st)
    }

    /// Whether `st` is active.
    pub open spec fn active(self, st: Status) -> bool {
        holds(self@, st)
    }

    /// Total damage the active statuses deal at the end of a round.
    pub open spec fn total_tick(self) -> nat {
        tick_total(self@)
    }

    pub fn new() -> (r: Self)
        ensures
            r.wf(),
            r@ == Seq::<ActiveStatus>::empty(),
            forall|st: Status| #[trigger] r.rounds(st) == 0,
    {
        Statuses(Vec::new())
    }

    /// The entries, in status order, each with its remaining rounds.
    pub fn entries(&self) -> (r: &[ActiveStatus])
        ensures
            r@ == self@,
    {
        self.0.as_slice()
    }

    /// Applying a status that is already present refreshes it to whichever
    /// duration is longer, rather than stacking a second copy. Zero rounds
    /// is a no-op.
    pub fn apply(&mut self, status: Status, rounds: u8)
        requires
            old(self).wf(),
        ensures
            final(self).wf(),
            rounds == 0 ==> final(self)@ == old(self)@,
            rounds > 0 ==> refreshed(old(self)@, final(self)@, status, if old(self).rounds(status) > rounds {
                old(self).rounds(status) as u8
            } else {
                rounds
            }),
            forall|st: Status| #[trigger]
                final(self).rounds(st) == if rounds > 0 && st == status {
                    if old(self).rounds(st) > rounds {
                        old(self).rounds(st)
                    } else {
                        rounds as nat
                    }
                } else {
                    old(self).rounds(st)
                },
    {
        if rounds == 0 {
            return;
        }
        let ghost s = self.0@;
        let target = status.index();
        let n = self.0.len();
        let mut p: usize = 0;
        while p < n && self.0[p].status.index() < target
            invariant
                n == self.0@.len(),
                self.0@ == s,
                entries_wf(s),
                target == status.rank(),
                p <= n,
                forall|k: int| 0 <= k < p ==> #[trigger] s[k].status.rank() < target,
            decreases n - p,
        {
            p = p + 1;
        }
        // Everything before `p` ranks below `status`; everything from `p` on
        // ranks at or above it.
        assert forall|k: int| p <= k < n implies #[trigger] s[k].status.rank() >= target by {
            if k > p {
                assert(s[p as int].status.rank() < s[k].status.rank());
            }
        }
        if p < n && self.0[p].status == status {
            let old_rounds = self.0[p].rounds;
            let r = if old_rounds > rounds {
                old_rounds
            } else {
                rounds
            };
            let mut v = copy_entries(&self.0);
            v.set(p, ActiveStatus { status, rounds: r });
            proof {
                lemma_refresh_entry(s, p as int, r);
                lemma_rounds_at(s, p as int);
                assert(v@.remove(p as int) =~= s.remove(p as int));
                assert(v@[p as int] == ActiveStatus { status, rounds: r });
            }
            self.0 = v;
        } else {
            let entry = ActiveStatus { status, rounds };
            let mut v = copy_entries(&self.0);
            v.insert(p, entry);
            proof {
                assert forall|k: int| p <= k < s.len() implies #[trigger] s[k].status.rank()
                    > entry.status.rank() by {
                    if k > p {
                        assert(s[p as int].status.rank() < s[k].status.rank());
                    } else {
                        assert(s[k].status != status);
                    }
                }
                lemma_insert_entry(s, p as int, entry);
                assert(v@.remove(p as int) =~= s);
                assert(v@[p as int] == entry);
                assert(rounds_in(s, status) == 0);
            }
            self.0 = v;
        }
    }

    pub fn has(&self, status: Status) -> (r: bool)
        ensures
            r == self.active(status),
            self.wf() ==> r == (self.rounds(status) > 0),
    {
        proof {
            if self.wf() {
                lemma_rounds_positive(self@, status);
            }
        }
        let n = self.0.len();
        let mut i: usize = 0;
        while i < n
            invariant
                n == self.0@.len(),
                i <= n,
                forall|k: int| 0 <= k < i ==> #[trigger] self.0@[k].status != status,
            decreases n - i,
        {
            if self.0[i].status == status {
                return true;
            }
            i = i + 1;
        }
        false
    }

    pub fn remove(&mut self, status: Status)
        requires
            old(self).wf(),
        ensures
            final(self).wf(),
            forall|st: Status| #[trigger]
                final(self).rounds(st) == if st == status {
                    0
                } else {
                    old(self).rounds(st)
                },
    {
        let ghost s = self.0@;
        let n = self.0.len();
        let mut i: usize = 0;
        while i < n
            invariant
                n == self.0@.len(),
                self.0@ == s,
                old(self)@ == s,
                entries_wf(s),
                i <= n,
                forall|k: int| 0 <= k < i ==> #[trigger] s[k].status != status,
            decreases n - i,
        {
            if self.0[i].status == status {
                let mut v = copy_entries(&self.0);
                v.remove(i);
                proof {
                    lemma_remove_entry(s, i as int);
                    assert(s[i as int].status == status);
                }
                self.0 = v;
                proof {
                    assert(self@ == s.remove(i as int));
                    assert(old(self)@ == s);
                    assert forall|st: Status| #[trigger] self.rounds(st) == if st == status {
                        0
                    } else {
                        rounds_in(s, st)
                    } by {}
                }
                return;
            }
            i = i + 1;
        }
        proof {
            assert(!holds(s, status));
        }
    }

    pub fn iter(&self) -> (r: std::slice::Iter<'_, ActiveStatus>)
        ensures
            IteratorSpec::remaining(&r).len() == self@.len(),
            forall|i: int|
                0 <= i < self@.len() ==> *#[trigger] IteratorSpec::remaining(&r)[i] == self@[i],
    {
        let it = self.0.as_slice().iter();
        proof {
            broadcast use vstd::std_specs::slice::axiom_spec_slice_iter;
        }
        it
    }

    pub fn is_empty(&self) -> (r: bool)
        ensures
            r == (self@.len() == 0),
            self.wf() ==> (r == (forall|st: Status| #[trigger] self.rounds(st) == 0)),
    {
        proof {
            if self@.len() > 0 && self.wf() {
                lemma_rounds_at(self@, 0);
                assert(self.rounds(self@[0].status) > 0);
            }
        }
        self.0.len() == 0
    }

    /// Total damage from ticking statuses this round.
    pub fn tick_damage(&self) -> (r: u16)
        requires
            self.wf(),
        ensures
            r == self.total_tick(),
    {
        proof {
            lemma_tick_total_bound(self@);
        }
        let n = self.0.len();
        let mut total: u16 = 0;
        let mut i: usize = 0;
        while i < n
            invariant
                n == self.0@.len(),
                i <= n,
                entries_wf(self.0@),
                total == tick_total(self.0@.take(i as int)),
                tick_total(self.0@) <= 3,
            decreases n - i,
        {
            proof {
                assert(self.0@.take(i + 1).drop_last() =~= self.0@.take(i as int));
                lemma_tick_total_bound(self.0@.take(i + 1));
                assert(entries_wf(self.0@.take(i + 1)));
            }
            total = total + self.0[i].status.tick_damage();
            i = i + 1;
        }
        proof {
            assert(self.0@.take(n as int) =~= self.0@);
        }
        total
    }

    /// Decrement all durations, dropping any that expire.
    pub fn tick(&mut self)
        requires
            old(self).wf(),
        ensures
            final(self).wf(),
            final(self)@ == ticked(old(self)@),
            forall|st: Status| #[trigger]
                final(self).rounds(st) == if old(self).rounds(st) > 1 {
                    (old(self).rounds(st) - 1) as nat
                } else {
                    0
                },
    {
        let ghost s = self.0@;
        let n = self.0.len();
        let mut out: Vec<ActiveStatus> = Vec::new();
        let mut i: usize = 0;
        while i < n
            invariant
                n == s.len(),
                self.0@ == s,
                i <= n,
                out@ == ticked(s.take(i as int)),
            decreases n - i,
        {
            let a = self.0[i];
            proof {
                assert(s.take(i + 1).drop_last() =~= s.take(i as int));
            }
            if a.rounds > 1 {
                out.push(ActiveStatus { status: a.status, rounds: a.rounds - 1 });
            }
            i = i + 1;
        }
        proof {
            assert(s.take(n as int) =~= s);
            lemma_ticked(s);
        }
        self.0 = out;
    }
}

/// Every duration one round shorter, expired entries dropped, order kept.
pub open spec fn ticked(s: Seq<ActiveStatus>) -> Seq<ActiveStatus>
    decreases s.len(),
{
    if s.len() == 0 {
        s
    } else {
        let rest = ticked(s.drop_last());
        if s.last().rounds > 1 {
            rest.push(ActiveStatus { status: s.last().status, rounds: (s.last().rounds - 1) as u8 })
        } else {
            rest
        }
    }
}

/// Every entry of a ticked list carries a status of the list before the tick.
pub proof fn lemma_ticked_holds(s: Seq<ActiveStatus>)
    ensures
        forall|k: int| 0 <= k < ticked(s).len() ==> holds(s, #[trigger] ticked(s)[k].status),
    decreases s.len(),
{
    if s.len() > 0 {
        let d = s.drop_last();
        lemma_ticked_holds(d);
        let rest = ticked(d);
        assert forall|k: int| 0 <= k < ticked(s).len() implies holds(s, #[trigger] ticked(s)[k].status) by {
            if k < rest.len() {
                assert(ticked(s)[k] == rest[k]);
                assert(holds(d, rest[k].status));
                let j = choose|j: int| 0 <= j < d.len() && #[trigger] d[j].status == rest[k].status;
                assert(d[j] == s[j]);
            } else {
                assert(s[s.len() - 1].status == ticked(s)[k].status);
            }
        }
    }
}

/// Appending an entry that ranks above every present one adds exactly it.
pub proof fn lemma_push_entry(s: Seq<ActiveStatus>, e: ActiveStatus)
    requires
        entries_wf(s),
        e.rounds > 0,
        forall|k: int| 0 <= k < s.len() ==> #[trigger] s[k].status.rank() < e.status.rank(),
    ensures
        entries_wf(s.push(e)),
        forall|st: Status| #[trigger]
            rounds_in(s.push(e), st) == if st == e.status {
                e.rounds as nat
            } else {
                rounds_in(s, st)
            },
{
    let t = s.push(e);
    assert forall|x: int, y: int| 0 <= x < y < t.len() implies #[trigger] t[x].status.rank()
        < #[trigger] t[y].status.rank() by {
        if y < t.len() - 1 {
            assert(t[x] == s[x] && t[y] == s[y]);
        } else {
            assert(t[x] == s[x]);
        }
    }
    assert forall|x: int| 0 <= x < t.len() implies #[trigger] t[x].rounds > 0 by {
        if x < t.len() - 1 {
            assert(t[x] == s[x]);
        }
    }
    assert(t.drop_last() =~= s);
    assert forall|st: Status| #[trigger]
        rounds_in(t, st) == if st == e.status {
            e.rounds as nat
        } else {
            rounds_in(s, st)
        } by {
        lemma_rounds_drop_last(t, st);
        lemma_rounds_at(t, t.len() - 1);
    }
}

/// Ticking keeps a list well formed and shortens each status by one round.
pub proof fn lemma_ticked(s: Seq<ActiveStatus>)
    requires
        entries_wf(s),
    ensures
        entries_wf(ticked(s)),
        forall|st: Status| #[trigger]
            rounds_in(ticked(s), st) == if rounds_in(s, st) > 1 {
                (rounds_in(s, st) - 1) as nat
            } else {
                0
            },
    decreases s.len(),
{
    if s.len() > 0 {
        let d = s.drop_last();
        let last = s.last();
        lemma_rounds_drop_last(s, last.status);
        lemma_ticked(d);
        lemma_ticked_holds(d);
        let rest = ticked(d);
        lemma_rounds_at(s, s.len() - 1);
        assert forall|k: int| 0 <= k < rest.len() implies #[trigger] rest[k].status.rank()
            < last.status.rank() by {
            assert(holds(d, rest[k].status));
            let j = choose|j: int| 0 <= j < d.len() && #[trigger] d[j].status == rest[k].status;
            assert(d[j] == s[j]);
            assert(s[j].status.rank() < s[s.len() - 1].status.rank());
        }
        if last.rounds > 1 {
            let e = ActiveStatus { status: last.status, rounds: (last.rounds - 1) as u8 };
            lemma_push_entry(rest, e);
            assert forall|st: Status| #[trigger]
                rounds_in(ticked(s), st) == if rounds_in(s, st) > 1 {
                    (rounds_in(s, st) - 1) as nat
                } else {
                    0
                } by {
                lemma_rounds_drop_last(s, st);
            }
        } else {
            assert forall|st: Status| #[trigger]
                rounds_in(ticked(s), st) == if rounds_in(s, st) > 1 {
                    (rounds_in(s, st) - 1) as nat
                } else {
                    0
                } by {
                lemma_rounds_drop_last(s, st);
                if st == last.status && holds(rest, st) {
                    let x = choose|x: int| 0 <= x < rest.len() && #[trigger] rest[x].status == st;
                    assert(rest[x].status.rank() < last.status.rank());
                }
            }
        }
    }
}

/// End-of-round damage is bounded by what Burned and Poisoned together deal.
pub proof fn lemma_tick_total_bound(s: Seq<ActiveStatus>)
    requires
        entries_wf(s),
    ensures
        tick_total(s) <= 3,
        tick_total(s) == (if holds(s, Status::Burned) {
            2nat
        } else {
            0nat
        }) + (if holds(s, Status::Poisoned) {
            1nat
        } else {
            0nat
        }),
    decreases s.len(),
{
    if s.len() > 0 {
        let d = s.drop_last();
        lemma_rounds_drop_last(s, Status::Burned);
        lemma_rounds_drop_last(s, Status::Poisoned);
        lemma_tick_total_bound(d);
        lemma_rounds_positive(s, Status::Burned);
        lemma_rounds_positive(s, Status::Poisoned);
        lemma_rounds_positive(d, Status::Burned);
        lemma_rounds_positive(d, Status::Poisoned);
        lemma_rounds_at(s, s.len() - 1);
    }
}

/// Applying two different statuses in either order leaves the same list:
/// iteration order does not depend on the order statuses were applied in.
pub proof fn lemma_apply_commutes(
    s0: Seq<ActiveStatus>,
    s1: Seq<ActiveStatus>,
    s2: Seq<ActiveStatus>,
    t1: Seq<ActiveStatus>,
    t2: Seq<ActiveStatus>,
    a: Status,
    ra: nat,
    b: Status,
    rb: nat,
)
    requires
        entries_wf(s0),
        entries_wf(s2),
        entries_wf(t2),
        a != b,
        // s1, s2: apply a then b; t1, t2: apply b then a.
        forall|st: Status| #[trigger]
            rounds_in(s1, st) == if ra > 0 && st == a {
                if rounds_in(s0, st) > ra {
                    rounds_in(s0, st)
                } else {
                    ra
                }
            } else {
                rounds_in(s0, st)
            },
        forall|st: Status| #[trigger]
            rounds_in(s2, st) == if rb > 0 && st == b {
                if rounds_in(s1, st) > rb {
                    rounds_in(s1, st)
                } else {
                    rb
                }
            } else {
                rounds_in(s1, st)
            },
        forall|st: Status| #[trigger]
            rounds_in(t1, st) == if rb > 0 && st == b {
                if rounds_in(s0, st) > rb {
                    rounds_in(s0, st)
                } else {
                    rb
                }
            } else {
                rounds_in(s0, st)
            },
        forall|st: Status| #[trigger]
            rounds_in(t2, st) == if ra > 0 && st == a {
                if rounds_in(t1, st) > ra {
                    rounds_in(t1, st)
                } else {
                    ra
                }
            } else {
                rounds_in(t1, st)
            },
    ensures
        s2 == t2,
{
    assert forall|st: Status| #[trigger] rounds_in(s2, st) == rounds_in(t2, st) by {
        assert(rounds_in(s1, st) == rounds_in(s1, st));
        assert(rounds_in(t1, st) == rounds_in(t1, st));
    }
    lemma_entries_determined(s2, t2);
}

} // verus!
