//! The combination rule table.
//!
//! Rules are keyed on *elements*, never on specific spells: a new spell
//! inherits every interaction its element already has.

use vstd::prelude::*;

use crate::game::element::Element;
use crate::game::status::Status;

verus! {

#[derive(Debug, Clone, Copy, PartialEq, Eq, PartialOrd, Ord, Structural)]
pub enum Targeting {
    Single,
    All,
}

impl Targeting {
    pub open spec fn label_view(self) -> Seq<char> {
        match self {
            Targeting::Single => "single target"@,
            Targeting::All => "ALL enemies"@,
        }
    }

    pub fn label(self) -> (r: &'static str)
        ensures
            r@ == self.label_view(),
    {
        match self {
            Targeting::Single => "single target",
            Targeting::All => "ALL enemies",
        }
    }
}

/// The multiplier a rule that states no power change carries: a thousand
/// thousandths.
pub const UNITY_PERMILLE: u32 = 1000;

/// How one element reshapes another. Every field is optional in authored
/// content, so a rule states only what it changes.
///
/// The power multiplier is held in thousandths: 800 scales damage by 0.8.
#[derive(Debug, Clone, Copy, PartialEq, Eq, Structural)]
pub struct Modifier {
    pub power_permille: u32,
    pub targeting: Option<Targeting>,
    pub pierce: bool,
    pub adds: Option<Status>,
}

#[derive(Debug, Clone, Copy, PartialEq, Eq, Structural)]
pub enum Interaction {
    /// The two elements become a third. Symmetric -- order in the table is
    /// irrelevant.
    Fuse(Element),
    /// The first element stays as the base; the second reshapes it.
    Modify(Modifier),
}

/// Maps a resolved signature to a name. `None` in a field means "any".
/// More specific rules are matched first.
#[derive(Debug, Clone, PartialEq, Eq)]
pub struct NameRule {
    pub element: Element,
    pub tier: Option<u8>,
    pub targeting: Option<Targeting>,
    pub name: String,
}

impl NameRule {
    /// How many constraints this rule pins down.
    pub open spec fn specificity_of(self) -> nat {
        (if self.tier is Some {
            1nat
        } else {
            0nat
        }) + (if self.targeting is Some {
            1nat
        } else {
            0nat
        })
    }

    /// Whether this rule names the signature `(element, tier, targeting)`.
    pub open spec fn matches_sig(self, element: Element, tier: u8, targeting: Targeting) -> bool {
        &&& self.element == element
        &&& (self.tier matches Some(t) ==> t == tier)
        &&& (self.targeting matches Some(t) ==> t == targeting)
    }

    /// How many constraints this rule pins down. Used to prefer specific
    /// rules over general ones.
    fn specificity(&self) -> (r: u8)
        ensures
            r == self.specificity_of(),
    {
        let a: u8 = if self.tier.is_some() {
            1
        } else {
            0
        };
        let b: u8 = if self.targeting.is_some() {
            1
        } else {
            0
        };
        a + b
    }

    fn matches(&self, element: Element, tier: u8, targeting: Targeting) -> (r: bool)
        ensures
            r == self.matches_sig(element, tier, targeting),
    {
        self.element == element && match self.tier {
            Some(t) => t == tier,
            None => true,
        } && match self.targeting {
            Some(t) => t == targeting,
            None => true,
        }
    }
}

/// A status an element inherently applies once it reaches a given tier.
#[derive(Debug, Clone, Copy, PartialEq, Eq, Structural)]
pub struct ElementStatus {
    pub element: Element,
    pub min_tier: u8,
    pub status: Status,
    pub rounds: u8,
}

/// The tier an element status applies from when content does not say.
pub fn one() -> (r: u8)
    ensures
        r == 1,
{
    1
}

#[derive(Debug, Clone, PartialEq, Eq)]
pub struct Rules {
    pub interactions: Vec<((Element, Element), Interaction)>,
    pub names: Vec<NameRule>,
    pub element_statuses: Vec<ElementStatus>,
}

/// The element entry `i` fuses `a` and `b` into, if it is a fusion of that pair
/// (in either order).
pub open spec fn fuse_at(s: Seq<((Element, Element), Interaction)>, i: int, a: Element, b: Element) -> Option<Element> {
    match s[i].1 {
        Interaction::Fuse(out) => if (s[i].0.0 == a && s[i].0.1 == b) || (s[i].0.0 == b && s[i].0.1
            == a) {
            Some(out)
        } else {
            None
        },
        _ => None,
    }
}

/// The first fusion entry for the pair, scanning the table in order.
pub open spec fn fusion_in(s: Seq<((Element, Element), Interaction)>, a: Element, b: Element) -> Option<Element>
    decreases s.len(),
{
    if s.len() == 0 {
        None
    } else if fuse_at(s, 0, a, b) is Some {
        fuse_at(s, 0, a, b)
    } else {
        fusion_in(s.subrange(1, s.len() as int), a, b)
    }
}

/// The modifier entry `i` carries for `base` reshaped by `modifier`, if any.
pub open spec fn modify_at(s: Seq<((Element, Element), Interaction)>, i: int, base: Element, modifier: Element) -> Option<Modifier> {
    match s[i].1 {
        Interaction::Modify(m) => if s[i].0.0 == base && s[i].0.1 == modifier {
            Some(m)
        } else {
            None
        },
        _ => None,
    }
}

/// The first modifier entry for `base` reshaped by `modifier`.
pub open spec fn modifier_in(s: Seq<((Element, Element), Interaction)>, base: Element, modifier: Element) -> Option<Modifier>
    decreases s.len(),
{
    if s.len() == 0 {
        None
    } else if modify_at(s, 0, base, modifier) is Some {
        modify_at(s, 0, base, modifier)
    } else {
        modifier_in(s.subrange(1, s.len() as int), base, modifier)
    }
}

/// Rule `i` is the one that names the signature: it matches, no matching rule
/// is more specific, and no later matching rule is as specific.
pub open spec fn is_chosen_name(s: Seq<NameRule>, i: int, element: Element, tier: u8, targeting: Targeting) -> bool {
    &&& 0 <= i < s.len()
    &&& s[i].matches_sig(element, tier, targeting)
    &&& forall|j: int|
        0 <= j < s.len() && #[trigger] s[j].matches_sig(element, tier, targeting) ==> s[j].specificity_of()
            <= s[i].specificity_of()
    &&& forall|j: int|
        i < j < s.len() && #[trigger] s[j].matches_sig(element, tier, targeting) ==> s[j].specificity_of()
            < s[i].specificity_of()
}

/// The authored name for a signature, if any rule matches.
pub open spec fn name_in(s: Seq<NameRule>, element: Element, tier: u8, targeting: Targeting) -> Option<Seq<char>> {
    if exists|i: int| is_chosen_name(s, i, element, tier, targeting) {
        Some(s[choose|i: int| is_chosen_name(s, i, element, tier, targeting)].name@)
    } else {
        None
    }
}

/// The inherent statuses of `element` at `tier`, in table order.
pub open spec fn statuses_in(s: Seq<ElementStatus>, element: Element, tier: u8) -> Seq<(Status, u8)>
    decreases s.len(),
{
    if s.len() == 0 {
        Seq::empty()
    } else {
        let rest = statuses_in(s.drop_last(), element, tier);
        let e = s.last();
        if e.element == element && tier >= e.min_tier {
            rest.push((e.status, e.rounds))
        } else {
            rest
        }
    }
}

/// Skipping a non-matching first entry does not change the first match.
proof fn lemma_fusion_step(s: Seq<((Element, Element), Interaction)>, i: int, a: Element, b: Element)
    requires
        0 <= i < s.len(),
    ensures
        fusion_in(s.subrange(i, s.len() as int), a, b) == if fuse_at(s, i, a, b) is Some {
            fuse_at(s, i, a, b)
        } else {
            fusion_in(s.subrange(i + 1, s.len() as int), a, b)
        },
{
    let t = s.subrange(i, s.len() as int);
    assert(t.subrange(1, t.len() as int) =~= s.subrange(i + 1, s.len() as int));
    assert(t[0] == s[i]);
}

proof fn lemma_modifier_step(s: Seq<((Element, Element), Interaction)>, i: int, base: Element, m: Element)
    requires
        0 <= i < s.len(),
    ensures
        modifier_in(s.subrange(i, s.len() as int), base, m) == if modify_at(s, i, base, m) is Some {
            modify_at(s, i, base, m)
        } else {
            modifier_in(s.subrange(i + 1, s.len() as int), base, m)
        },
{
    let t = s.subrange(i, s.len() as int);
    assert(t.subrange(1, t.len() as int) =~= s.subrange(i + 1, s.len() as int));
    assert(t[0] == s[i]);
}

impl Rules {
    /// Fusion is symmetric: both orderings are checked.
    pub open spec fn fusion_of(&self, a: Element, b: Element) -> Option<Element> {
        fusion_in(self.interactions@, a, b)
    }

    pub open spec fn modifier_of(&self, base: Element, modifier: Element) -> Option<Modifier> {
        modifier_in(self.interactions@, base, modifier)
    }

    pub open spec fn name_of(&self, element: Element, tier: u8, targeting: Targeting) -> Option<Seq<char>> {
        name_in(self.names@, element, tier, targeting)
    }

    pub open spec fn statuses_of(&self, element: Element, tier: u8) -> Seq<(Status, u8)> {
        statuses_in(self.element_statuses@, element, tier)
    }

    /// Fusion is symmetric: both orderings are checked.
    pub fn fusion(&self, a: Element, b: Element) -> (r: Option<Element>)
        ensures
            r == self.fusion_of(a, b),
    {
        let n = self.interactions.len();
        let mut i: usize = 0;
        proof {
            assert(self.interactions@.subrange(0, n as int) =~= self.interactions@);
        }
        while i < n
            invariant
                n == self.interactions@.len(),
                i <= n,
                fusion_in(self.interactions@.subrange(i as int, n as int), a, b) == self.fusion_of(
                    a,
                    b,
                ),
            decreases n - i,
        {
            proof {
                lemma_fusion_step(self.interactions@, i as int, a, b);
            }
            let entry = &self.interactions[i];
            let x = entry.0.0;
            let y = entry.0.1;
            if let Interaction::Fuse(out) = entry.1 {
                if (x == a && y == b) || (x == b && y == a) {
                    return Some(out);
                }
            }
            i = i + 1;
        }
        None
    }

    /// Directional: looks up `base` being reshaped by `modifier`.
    pub fn modifier(&self, base: Element, modifier: Element) -> (r: Option<&Modifier>)
        ensures
            r matches Some(m) ==> self.modifier_of(base, modifier) == Some(*m),
            r is None ==> self.modifier_of(base, modifier) is None,
    {
        let n = self.interactions.len();
        let mut i: usize = 0;
        proof {
            assert(self.interactions@.subrange(0, n as int) =~= self.interactions@);
        }
        while i < n
            invariant
                n == self.interactions@.len(),
                i <= n,
                modifier_in(self.interactions@.subrange(i as int, n as int), base, modifier)
                    == self.modifier_of(base, modifier),
            decreases n - i,
        {
            proof {
                lemma_modifier_step(self.interactions@, i as int, base, modifier);
            }
            let entry = &self.interactions[i];
            if entry.0.0 == base && entry.0.1 == modifier {
                if let Interaction::Modify(m) = &entry.1 {
                    return Some(m);
                }
            }
            i = i + 1;
        }
        None
    }

    /// The most specific authored name for this signature, if any. Among
    /// equally specific rules the last one wins.
    pub fn name(&self, element: Element, tier: u8, targeting: Targeting) -> (r: Option<&str>)
        ensures
            r matches Some(s) ==> self.name_of(element, tier, targeting) == Some(s@),
            r is None ==> self.name_of(element, tier, targeting) is None,
    {
        let ghost s = self.names@;
        let n = self.names.len();
        let mut best: Option<usize> = None;
        let mut i: usize = 0;
        while i < n
            invariant
                n == s.len(),
                s == self.names@,
                i <= n,
                best is None ==> forall|j: int|
                    0 <= j < i ==> !(#[trigger] s[j]).matches_sig(element, tier, targeting),
                best matches Some(b) ==> {
                    &&& b < i
                    &&& s[b as int].matches_sig(element, tier, targeting)
                    &&& forall|j: int|
                        0 <= j < i && #[trigger] s[j].matches_sig(element, tier, targeting)
                            ==> s[j].specificity_of() <= s[b as int].specificity_of()
                    &&& forall|j: int|
                        b < j < i && #[trigger] s[j].matches_sig(element, tier, targeting)
                            ==> s[j].specificity_of() < s[b as int].specificity_of()
                },
            decreases n - i,
        {
            let rule = &self.names[i];
            if rule.matches(element, tier, targeting) {
                match best {
                    None => {
                        best = Some(i);
                    },
                    Some(b) => {
                        if rule.specificity() >= self.names[b].specificity() {
                            best = Some(i);
                        }
                    },
                }
            }
            i = i + 1;
        }
        match best {
            Some(b) => {
                proof {
                    assert(is_chosen_name(s, b as int, element, tier, targeting));
                    let c = choose|c: int| is_chosen_name(s, c, element, tier, targeting);
                    if c < b {
                        assert(s[b as int].specificity_of() < s[c].specificity_of());
                    } else if c > b {
                        assert(s[c].specificity_of() < s[b as int].specificity_of());
                    }
                }
                Some(self.names[b].name.as_str())
            },
            None => {
                proof {
                    assert(!exists|c: int| is_chosen_name(s, c, element, tier, targeting));
                }
                None
            },
        }
    }

    /// Statuses this element applies inherently at the given tier.
    pub fn element_statuses(&self, element: Element, tier: u8) -> (r: Vec<(Status, u8)>)
        ensures
            r@ == self.statuses_of(element, tier),
    {
        let ghost s = self.element_statuses@;
        let n = self.element_statuses.len();
        let mut out: Vec<(Status, u8)> = Vec::new();
        let mut i: usize = 0;
        while i < n
            invariant
                n == s.len(),
                s == self.element_statuses@,
                i <= n,
                out@ == statuses_in(s.take(i as int), element, tier),
            decreases n - i,
        {
            let e = self.element_statuses[i];
            proof {
                assert(s.take(i + 1).drop_last() =~= s.take(i as int));
            }
            if e.element == element && tier >= e.min_tier {
                out.push((e.status, e.rounds));
            }
            i = i + 1;
        }
        proof {
            assert(s.take(n as int) =~= s);
        }
        out
    }
}

} // verus!
