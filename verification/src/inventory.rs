//! Resource kinds, what a worker carries, and what a base stores.

use std::collections::VecDeque;
use vstd::prelude::*;
use crate::text::same;

verus! {

/// A kind of collectible resource.
#[derive(Copy, Clone, Debug, PartialEq, Eq, Structural)]
pub enum ResourceKind {
    Energy,
    Grass,
    Wood,
}

impl ResourceKind {
    /// Number of kinds.
    pub const COUNT: usize = 3;

    /// Place of the kind in the tallies kept per kind.
    pub open spec fn slot(self) -> int {
        match self {
            ResourceKind::Energy => 0,
            ResourceKind::Grass => 1,
            ResourceKind::Wood => 2,
        }
    }

    /// Place of the kind in the tallies kept per kind.
    pub fn index(self) -> (i: usize)
        ensures
            i == self.slot(),
            i < Self::COUNT,
    {
        match self {
            ResourceKind::Energy => 0,
            ResourceKind::Grass => 1,
            ResourceKind::Wood => 2,
        }
    }

    /// Every kind, in the order of the tallies.
    pub fn all() -> (kinds: [ResourceKind; 3])
        ensures
            forall|i: int| 0 <= i < 3 ==> (#[trigger] kinds@[i]).slot() == i,
    {
        [ResourceKind::Energy, ResourceKind::Grass, ResourceKind::Wood]
    }

    /// True of the kinds that turn slowly where they lie, to catch the eye.
    pub fn spins(self) -> (b: bool)
        ensures
            b == (self == ResourceKind::Energy),
    {
        self == ResourceKind::Energy
    }

    /// The name of the kind.
    pub open spec fn name(self) -> Seq<char> {
        match self {
            ResourceKind::Energy => "energy"@,
            ResourceKind::Grass => "grass"@,
            ResourceKind::Wood => "wood"@,
        }
    }

    /// The name of the kind.
    pub fn label(self) -> (l: &'static str)
        ensures
            l@ == self.name(),
    {
        match self {
            ResourceKind::Energy => "energy",
            ResourceKind::Grass => "grass",
            ResourceKind::Wood => "wood",
        }
    }

    /// The kind of a name.
    pub fn from_token(token: &str) -> (kind: Option<ResourceKind>)
        ensures
            kind == kind_named(token@),
    {
        if same(token, "energy") {
            Some(ResourceKind::Energy)
        } else if same(token, "grass") {
            Some(ResourceKind::Grass)
        } else if same(token, "wood") {
            Some(ResourceKind::Wood)
        } else {
            None
        }
    }
}

/// The kind of a name.
pub open spec fn kind_named(token: Seq<char>) -> Option<ResourceKind> {
    if token == ResourceKind::Energy.name() {
        Some(ResourceKind::Energy)
    } else if token == ResourceKind::Grass.name() {
        Some(ResourceKind::Grass)
    } else if token == ResourceKind::Wood.name() {
        Some(ResourceKind::Wood)
    } else {
        None
    }
}

/// A kind is found by its name, and by no other text.
pub proof fn law_names_tell_kinds_apart(token: Seq<char>, kind: ResourceKind)
    ensures
        kind_named(token) == Some(kind) <==> token == kind.name(),
{
    reveal_strlit("energy");
    reveal_strlit("grass");
    reveal_strlit("wood");
    assert("energy"@.len() == 6 && "grass"@.len() == 5 && "wood"@.len() == 4);
}

/// The kind at a place of the tallies.
pub open spec fn kind_at(i: int) -> ResourceKind {
    if i == 0 {
        ResourceKind::Energy
    } else if i == 1 {
        ResourceKind::Grass
    } else {
        ResourceKind::Wood
    }
}

/// How often `kind` occurs in `s`.
pub open spec fn occurrences(s: Seq<ResourceKind>, kind: ResourceKind) -> nat
    decreases s.len(),
{
    if s.len() == 0 {
        0
    } else {
        occurrences(s.drop_last(), kind) + (if s.last() == kind {
            1nat
        } else {
            0nat
        })
    }
}

/// Counting goes part by part.
pub proof fn lemma_occurrences_add(a: Seq<ResourceKind>, b: Seq<ResourceKind>, kind: ResourceKind)
    ensures
        occurrences(a + b, kind) == occurrences(a, kind) + occurrences(b, kind),
    decreases b.len(),
{
    if b.len() == 0 {
        assert(a + b =~= a);
    } else {
        lemma_occurrences_add(a, b.drop_last(), kind);
        assert((a + b).drop_last() =~= a + b.drop_last());
    }
}

/// Counting one item added at the back.
pub proof fn lemma_occurrences_push(s: Seq<ResourceKind>, k: ResourceKind, kind: ResourceKind)
    ensures
        occurrences(s.push(k), kind) == occurrences(s, kind) + (if k == kind {
            1nat
        } else {
            0nat
        }),
{
    assert(s.push(k).drop_last() =~= s);
}

/// Counting one item taken from the front.
pub proof fn lemma_occurrences_first(s: Seq<ResourceKind>, kind: ResourceKind)
    requires
        s.len() > 0,
    ensures
        occurrences(s, kind) == occurrences(s.drop_first(), kind) + (if s[0] == kind {
            1nat
        } else {
            0nat
        }),
{
    let one = Seq::<ResourceKind>::empty().push(s[0]);
    lemma_occurrences_push(Seq::empty(), s[0], kind);
    lemma_occurrences_add(one, s.drop_first(), kind);
    assert(s =~= one + s.drop_first());
}

/// What occurs is counted.
pub proof fn lemma_occurrences_contains(s: Seq<ResourceKind>, kind: ResourceKind)
    ensures
        s.contains(kind) == (occurrences(s, kind) > 0),
    decreases s.len(),
{
    if s.len() > 0 {
        lemma_occurrences_contains(s.drop_last(), kind);
        if s.drop_last().contains(kind) {
            let i = choose|i: int| 0 <= i < s.drop_last().len() && s.drop_last()[i] == kind;
            assert(s[i] == kind);
        }
        if s.contains(kind) && s.last() != kind {
            let i = choose|i: int| 0 <= i < s.len() && s[i] == kind;
            assert(s.drop_last()[i] == kind);
        }
        if s.last() == kind {
            assert(s[s.len() - 1] == kind);
        }
    }
}

/// Counting a kind is counting the items that are of it.
pub proof fn law_occurrences_are_counted(s: Seq<ResourceKind>, kind: ResourceKind)
    ensures
        occurrences(s, kind) == s.filter(|k: ResourceKind| k == kind).len(),
    decreases s.len(),
{
    let f = |k: ResourceKind| k == kind;
    reveal(Seq::filter);
    if s.len() > 0 {
        law_occurrences_are_counted(s.drop_last(), kind);
    }
}

/// Picking up loses nothing: what was carried and what is added are carried afterwards or have
/// been returned.
pub proof fn law_push_conserves(
    before: Seq<ResourceKind>,
    added: ResourceKind,
    after: Seq<ResourceKind>,
    evicted: Option<ResourceKind>,
    kind: ResourceKind,
)
    requires
        before.len() < Inventory::CAPACITY ==> evicted is None && after == before.push(added),
        before.len() >= Inventory::CAPACITY ==> evicted == Some(before[0]) && after == before.push(
            added,
        ).drop_first(),
    ensures
        occurrences(after, kind) + (if evicted == Some(kind) {
            1nat
        } else {
            0nat
        }) == occurrences(before, kind) + (if added == kind {
            1nat
        } else {
            0nat
        }),
{
    lemma_occurrences_push(before, added, kind);
    if before.len() >= Inventory::CAPACITY {
        lemma_occurrences_first(before.push(added), kind);
    }
}

/// Queue of carried resources, oldest first.
pub struct Inventory {
    pub queue: VecDeque<ResourceKind>,
}

impl View for Inventory {
    type V = Seq<ResourceKind>;

    open spec fn view(&self) -> Seq<ResourceKind> {
        self.queue@
    }
}

impl Default for Inventory {
    fn default() -> (inv: Inventory)
        ensures
            inv@ == Seq::<ResourceKind>::empty(),
    {
        Inventory { queue: VecDeque::new() }
    }
}

impl Inventory {
    /// Most items that a worker keeps.
    pub const CAPACITY: usize = 2;

    /// True if nothing is carried.
    pub fn is_empty(&self) -> (b: bool)
        ensures
            b == (self@.len() == 0),
    {
        self.queue.len() == 0
    }

    /// Adds `kind` at the back. If that is one item too many, the oldest is taken out and
    /// returned.
    pub fn push(&mut self, kind: ResourceKind) -> (evicted: Option<ResourceKind>)
        ensures
            old(self)@.len() < Self::CAPACITY ==> evicted is None && final(self)@ == old(self)@.push(
                kind,
            ),
            old(self)@.len() >= Self::CAPACITY ==> evicted == Some(old(self)@[0]) && final(self)@
                == old(self)@.push(kind).drop_first(),
    {
        self.queue.push_back(kind);
        if self.queue.len() > Self::CAPACITY {
            self.queue.pop_front()
        } else {
            None
        }
    }

    /// Empties the queue into a tally kept per kind.
    pub fn drain_into(&mut self, counts: &mut [u32; 3])
        requires
            forall|k: ResourceKind|
                (#[trigger] old(counts)@[k.slot()]) + occurrences(old(self)@, k) <= u32::MAX,
        ensures
            final(self)@.len() == 0,
            forall|k: ResourceKind| #[trigger]
                final(counts)@[k.slot()] == old(counts)@[k.slot()] + occurrences(old(self)@, k),
    {
        self.tally(counts);
        while self.queue.len() > 0
            decreases self.queue@.len(),
        {
            self.queue.pop_front();
        }
    }

    /// Adds what is carried to a tally kept per kind.
    pub fn tally(&self, counts: &mut [u32; 3])
        requires
            forall|k: ResourceKind|
                (#[trigger] old(counts)@[k.slot()]) + occurrences(self@, k) <= u32::MAX,
        ensures
            forall|k: ResourceKind| #[trigger]
                final(counts)@[k.slot()] == old(counts)@[k.slot()] + occurrences(self@, k),
    {
        let ghost counts0 = counts@;
        let mut i: usize = 0;
        assert(self.queue@.skip(0) =~= self.queue@);
        while i < self.queue.len()
            invariant
                i <= self.queue@.len(),
                forall|k: ResourceKind|
                    (#[trigger] counts0[k.slot()]) + occurrences(self.queue@, k) <= u32::MAX,
                forall|k: ResourceKind| #[trigger]
                    counts@[k.slot()] + occurrences(self.queue@.skip(i as int), k)
                        == counts0[k.slot()] + occurrences(self.queue@, k),
            decreases self.queue@.len() - i,
        {
            let ghost rest = self.queue@.skip(i as int);
            let ghost counts1 = counts@;
            let kind = self.queue[i];
            let slot = kind.index();
            proof {
                lemma_occurrences_first(rest, kind);
                assert(counts0[kind.slot()] + occurrences(self.queue@, kind) <= u32::MAX);
                assert(counts1[kind.slot()] + occurrences(rest, kind) == counts0[kind.slot()]
                    + occurrences(self.queue@, kind));
            }
            counts[slot] = counts[slot] + 1;
            i += 1;
            proof {
                assert(rest.drop_first() =~= self.queue@.skip(i as int));
                assert forall|j: ResourceKind| #[trigger]
                    counts@[j.slot()] + occurrences(self.queue@.skip(i as int), j)
                        == counts0[j.slot()] + occurrences(self.queue@, j) by {
                    lemma_occurrences_first(rest, j);
                    assert(counts1[j.slot()] + occurrences(rest, j) == counts0[j.slot()]
                        + occurrences(self.queue@, j));
                }
            }
        }
    }

    /// What the carry indicator at a place of the queue shows, if anything.
    pub fn carried_at(&self, slot: usize) -> (kind: Option<ResourceKind>)
        ensures
            kind == (if slot < self@.len() {
                Some(self@[slot as int])
            } else {
                None
            }),
    {
        if slot < self.queue.len() {
            Some(self.queue[slot])
        } else {
            None
        }
    }

    /// True if at least one item of a kind is carried.
    pub fn carries(&self, kind: ResourceKind) -> (b: bool)
        ensures
            b == self@.contains(kind),
    {
        let mut i: usize = 0;
        while i < self.queue.len()
            invariant
                i <= self.queue@.len(),
                forall|j: int| 0 <= j < i ==> self.queue@[j] != kind,
            decreases self.queue@.len() - i,
        {
            if self.queue[i] == kind {
                return true;
            }
            i += 1;
        }
        false
    }
}

/// Stock of a base, per kind.
pub struct Base {
    pub stored: [u32; 3],
}

impl Default for Base {
    fn default() -> (base: Base)
        ensures
            base.stored@ == seq![0u32, 0u32, 0u32],
    {
        let stored: [u32; 3] = [0, 0, 0];
        assert(stored@ =~= seq![0u32, 0u32, 0u32]);
        Base { stored }
    }
}

/// The tallies hold energy, grass and wood, in this order; so do their names.
pub proof fn law_kinds_have_their_places(kind: ResourceKind)
    ensures
        ResourceKind::Energy.slot() == 0,
        ResourceKind::Grass.slot() == 1,
        ResourceKind::Wood.slot() == 2,
        kind_at(kind.slot()) == kind,
        ResourceKind::Energy.name() == "energy"@,
        ResourceKind::Grass.name() == "grass"@,
        ResourceKind::Wood.name() == "wood"@,
{
}

} // verus!
