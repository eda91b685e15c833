//! The spatial registry: every live body of the simulation, by handle.

use vstd::prelude::*;
use crate::enemy::{Enemy, Target};
use crate::energy::{CollectArea, Energy};
use crate::player::Player;
use crate::vector::Vec2;

verus! {

/// Handle of a body in the registry. A handle is never given out twice.
#[derive(Clone, Copy, Debug, PartialEq, Eq, Hash, Structural)]
pub struct Entity(pub u64);

/// The role a body plays, with the data that role carries.
#[derive(Clone, Copy, Debug, PartialEq, Eq, Structural)]
pub enum Kind {
    Player(Player),
    Core(Target),
    CollectArea(CollectArea),
    Enemy(Enemy),
    Energy(Energy),
}

/// One live body: where it is, how it moves, and what it is.
#[derive(Clone, Copy, Debug, PartialEq, Eq, Structural)]
pub struct Body {
    pub id: Entity,
    pub position: Vec2,
    pub velocity: Vec2,
    /// Impulse waiting to be handed to the physics step.
    pub impulse: Vec2,
    pub kind: Kind,
}

/// Handles increase along `s` and stay below `bound`: no handle occurs twice,
/// and `bound` and everything above it is still free.
pub open spec fn ids_ascend(s: Seq<Body>, bound: nat) -> bool {
    &&& forall|i: int, j: int| 0 <= i < j < s.len() ==> s[i].id.0 < s[j].id.0
    &&& forall|i: int| 0 <= i < s.len() ==> (#[trigger] s[i]).id.0 < bound
}

/// The registry. Bodies are kept in the order they were spawned.
pub struct World {
    bodies: Vec<Body>,
    next_id: u64,
}

/// The body with handle `id` stands at index `j` of `s`, and no earlier.
pub open spec fn holds_at(s: Seq<Body>, j: int, id: Entity) -> bool {
    &&& 0 <= j < s.len()
    &&& s[j].id == id
    &&& forall|i: int| 0 <= i < j ==> s[i].id != id
}

/// `b` with its position and velocity replaced where it is the body `id`.
pub open spec fn moved(b: Body, id: Entity, position: Vec2, velocity: Vec2) -> Body {
    if b.id == id {
        Body { position, velocity, ..b }
    } else {
        b
    }
}

/// `b` with its waiting impulse cleared where it is the body `id`.
pub open spec fn relieved(b: Body, id: Entity) -> Body {
    if b.id == id {
        Body { impulse: Vec2 { x: 0, y: 0 }, ..b }
    } else {
        b
    }
}

impl World {
    /// The live bodies, oldest first.
    pub closed spec fn view(&self) -> Seq<Body> {
        self.bodies@
    }

    /// The handle the next spawned body will get.
    pub closed spec fn next_id(&self) -> nat {
        self.next_id as nat
    }

    /// No handle is in use twice, and no live body holds a handle that is
    /// still to be given out. Every registry starts out so, and every
    /// operation keeps it so.
    pub open spec fn wf(&self) -> bool {
        ids_ascend(self@, self.next_id())
    }

    /// An empty registry.
    pub fn new() -> (w: World)
        ensures
            w@ == Seq::<Body>::empty(),
            w.next_id() == 0,
            w.wf(),
    {
        World { bodies: Vec::new(), next_id: 0 }
    }

    /// Number of live bodies.
    pub fn len(&self) -> (n: usize)
        ensures
            n == self@.len(),
    {
        self.bodies.len()
    }

    /// The `i`-th live body, oldest first.
    pub fn body(&self, i: usize) -> (b: Body)
        requires
            i < self@.len(),
        ensures
            b == self@[i as int],
    {
        self.bodies[i]
    }

    /// Whether another body can still be spawned: handles run out after
    /// `u64::MAX` spawns.
    pub fn has_room(&self) -> (r: bool)
        ensures
            r == (self.next_id() < u64::MAX),
    {
        self.next_id < u64::MAX
    }

    /// How many more bodies can be spawned before handles run out.
    pub fn room(&self) -> (r: u64)
        ensures
            r == u64::MAX - self.next_id(),
    {
        u64::MAX - self.next_id
    }

    /// Index of the body with handle `id`, if it is live.
    pub fn find(&self, id: Entity) -> (r: Option<usize>)
        ensures
            match r {
                Some(i) => holds_at(self@, i as int, id),
                None => forall|j: int| 0 <= j < self@.len() ==> self@[j].id != id,
            },
    {
        let n = self.bodies.len();
        let mut i: usize = 0;
        while i < n
            invariant
                n == self.bodies@.len(),
                i <= n,
                forall|j: int| 0 <= j < i ==> self.bodies@[j].id != id,
            decreases n - i,
        {
            if self.bodies[i].id == id {
                return Some(i);
            }
            i += 1;
        }
        None
    }

    /// The body with handle `id`, if it is live.
    pub fn get(&self, id: Entity) -> (r: Option<Body>)
        ensures
            match r {
                Some(b) => exists|j: int| #[trigger] holds_at(self@, j, id) && self@[j] == b,
                None => forall|j: int| 0 <= j < self@.len() ==> self@[j].id != id,
            },
    {
        match self.find(id) {
            Some(i) => {
                assert(holds_at(self@, i as int, id));
                Some(self.bodies[i])
            },
            None => None,
        }
    }

    /// Adds a body with no impulse waiting and returns its handle.
    pub fn spawn(&mut self, position: Vec2, velocity: Vec2, kind: Kind) -> (id: Entity)
        requires
            old(self).next_id() < u64::MAX,
        ensures
            id.0 == old(self).next_id(),
            final(self).next_id() == old(self).next_id() + 1,
            final(self)@ == old(self)@.push(
                Body { id, position, velocity, impulse: Vec2 { x: 0, y: 0 }, kind },
            ),
            old(self).wf() ==> final(self).wf(),
    {
        let id = Entity(self.next_id);
        self.next_id = self.next_id + 1;
        self.bodies.push(Body { id, position, velocity, impulse: Vec2::zero(), kind });
        id
    }

    /// Removes the body with handle `id`. Returns whether there was one.
    pub fn despawn(&mut self, id: Entity) -> (found: bool)
        ensures
            found == exists|j: int| 0 <= j < old(self)@.len() && old(self)@[j].id == id,
            final(self)@ == old(self)@.filter(|b: Body| b.id != id),
            final(self).next_id() == old(self).next_id(),
            old(self).wf() ==> final(self).wf(),
    {
        let mut flags: Vec<bool> = Vec::new();
        let n = self.bodies.len();
        let mut found = false;
        let mut i: usize = 0;
        while i < n
            invariant
                n == self.bodies@.len(),
                i <= n,
                flags@.len() == i,
                forall|j: int| 0 <= j < i ==> flags@[j] == (self.bodies@[j].id != id),
                found == exists|j: int| 0 <= j < i && self.bodies@[j].id == id,
            decreases n - i,
        {
            let keep = !(self.bodies[i].id == id);
            if !keep {
                found = true;
            }
            flags.push(keep);
            i += 1;
        }
        self.keep(&flags);
        proof {
            lemma_select_is_filter(old(self)@, flags@, |b: Body| b.id != id);
        }
        found
    }

    /// Records where the physics step has put the body `id` and how it now
    /// moves. Returns whether the body is live.
    pub fn set_motion(&mut self, id: Entity, position: Vec2, velocity: Vec2) -> (found: bool)
        ensures
            found == exists|j: int| 0 <= j < old(self)@.len() && old(self)@[j].id == id,
            final(self)@ == old(self)@.map_values(|b: Body| moved(b, id, position, velocity)),
            final(self).next_id() == old(self).next_id(),
            old(self).wf() ==> final(self).wf(),
    {
        let n = self.bodies.len();
        let mut found = false;
        let mut i: usize = 0;
        while i < n
            invariant
                n == self.bodies@.len(),
                n == old(self).bodies@.len(),
                i <= n,
                self.next_id == old(self).next_id,
                forall|j: int|
                    0 <= j < i ==> self.bodies@[j] == moved(
                        old(self).bodies@[j],
                        id,
                        position,
                        velocity,
                    ),
                forall|j: int| i <= j < n ==> self.bodies@[j] == old(self).bodies@[j],
                found == exists|j: int| 0 <= j < i && old(self).bodies@[j].id == id,
            decreases n - i,
        {
            let b = self.bodies[i];
            if b.id == id {
                found = true;
                self.bodies.set(i, Body { position, velocity, ..b });
            }
            i += 1;
        }
        assert(self.bodies@ =~= old(self).bodies@.map_values(
            |b: Body| moved(b, id, position, velocity),
        ));
        found
    }

    /// Hands out the impulse waiting on the body `id` and clears it: `None`
    /// where the body is not live.
    pub fn take_impulse(&mut self, id: Entity) -> (r: Option<Vec2>)
        ensures
            match r {
                Some(v) => exists|j: int|
                    #[trigger] holds_at(old(self)@, j, id) && old(self)@[j].impulse == v,
                None => forall|j: int| 0 <= j < old(self)@.len() ==> old(self)@[j].id != id,
            },
            final(self)@ == old(self)@.map_values(|b: Body| relieved(b, id)),
            final(self).next_id() == old(self).next_id(),
            old(self).wf() ==> final(self).wf(),
    {
        let first: Option<Vec2> = match self.find(id) {
            Some(k) => {
                assert(holds_at(self@, k as int, id));
                Some(self.bodies[k].impulse)
            },
            None => None,
        };
        let n = self.bodies.len();
        let mut i: usize = 0;
        while i < n
            invariant
                n == self.bodies@.len(),
                n == old(self).bodies@.len(),
                i <= n,
                self.next_id == old(self).next_id,
                forall|j: int| 0 <= j < i ==> self.bodies@[j] == relieved(old(self).bodies@[j], id),
                forall|j: int| i <= j < n ==> self.bodies@[j] == old(self).bodies@[j],
            decreases n - i,
        {
            let b = self.bodies[i];
            if b.id == id {
                self.bodies.set(i, Body { impulse: Vec2::zero(), ..b });
            }
            i += 1;
        }
        assert(self.bodies@ =~= old(self).bodies@.map_values(|b: Body| relieved(b, id)));
        first
    }

    /// Puts `b` in the place of the `i`-th body.
    pub(crate) fn replace(&mut self, i: usize, b: Body)
        requires
            i < old(self)@.len(),
        ensures
            final(self)@ == old(self)@.update(i as int, b),
            final(self).next_id() == old(self).next_id(),
            old(self).wf() && b.id == old(self)@[i as int].id ==> final(self).wf(),
    {
        self.bodies.set(i, b);
    }

    /// Keeps the bodies whose flag is set and drops the others.
    pub(crate) fn keep(&mut self, flags: &Vec<bool>)
        requires
            flags@.len() == old(self)@.len(),
        ensures
            final(self)@ == select(old(self)@, flags@),
            final(self).next_id() == old(self).next_id(),
            old(self).wf() ==> final(self).wf(),
    {
        let n = self.bodies.len();
        let mut out: Vec<Body> = Vec::new();
        let mut i: usize = 0;
        while i < n
            invariant
                n == self.bodies@.len(),
                n == flags@.len(),
                i <= n,
                out@ == select(self.bodies@.take(i as int), flags@.take(i as int)),
            decreases n - i,
        {
            proof {
                lemma_select_step(self.bodies@, flags@, i as int);
            }
            if flags[i] {
                out.push(self.bodies[i]);
            }
            i += 1;
        }
        proof {
            assert(self.bodies@.take(n as int) =~= self.bodies@);
            assert(flags@.take(n as int) =~= flags@);
            if old(self).wf() {
                lemma_select_ascends(self.bodies@, flags@, self.next_id as nat);
            }
        }
        self.bodies = out;
    }
}

/// The bodies of `s` whose flag in `flags` is set, in their order.
pub open spec fn select(s: Seq<Body>, flags: Seq<bool>) -> Seq<Body>
    decreases s.len(),
{
    if s.len() == 0 || flags.len() != s.len() {
        Seq::<Body>::empty()
    } else if flags.last() {
        select(s.drop_last(), flags.drop_last()).push(s.last())
    } else {
        select(s.drop_last(), flags.drop_last())
    }
}

// Selecting from one more body appends it or not, as its flag says.
proof fn lemma_select_step(s: Seq<Body>, flags: Seq<bool>, i: int)
    requires
        0 <= i < s.len(),
        flags.len() == s.len(),
    ensures
        select(s.take(i + 1), flags.take(i + 1)) == if flags[i] {
            select(s.take(i), flags.take(i)).push(s[i])
        } else {
            select(s.take(i), flags.take(i))
        },
{
    assert(s.take(i + 1).drop_last() =~= s.take(i));
    assert(flags.take(i + 1).drop_last() =~= flags.take(i));
}

/// Flags that answer a test body by body select what the test filters.
pub proof fn lemma_select_is_filter(s: Seq<Body>, flags: Seq<bool>, pred: spec_fn(Body) -> bool)
    requires
        flags.len() == s.len(),
        forall|j: int| 0 <= j < s.len() ==> flags[j] == pred(#[trigger] s[j]),
    ensures
        select(s, flags) == s.filter(pred),
    decreases s.len(),
{
    reveal(Seq::filter);
    if s.len() > 0 {
        lemma_select_is_filter(s.drop_last(), flags.drop_last(), pred);
    }
}

// Selection keeps handles ascending and below the bound.
proof fn lemma_select_ascends(s: Seq<Body>, flags: Seq<bool>, bound: nat)
    requires
        flags.len() == s.len(),
        ids_ascend(s, bound),
    ensures
        ids_ascend(select(s, flags), bound),
    decreases s.len(),
{
    if s.len() > 0 {
        let s0 = s.drop_last();
        let last = s.last();
        assert(ids_ascend(s0, last.id.0 as nat)) by {
            assert forall|i: int| 0 <= i < s0.len() implies (#[trigger] s0[i]).id.0
                < last.id.0 by {
                assert(s[i].id.0 < s[s.len() - 1].id.0);
            }
        }
        assert(ids_ascend(s0, bound));
        lemma_select_ascends(s0, flags.drop_last(), last.id.0 as nat);
        lemma_select_ascends(s0, flags.drop_last(), bound);
    }
}

/// Filtering keeps handles ascending and below the bound: what is left of a
/// registry in which no handle is in use twice has no handle in use twice.
pub proof fn lemma_filter_ascends(s: Seq<Body>, pred: spec_fn(Body) -> bool, bound: nat)
    requires
        ids_ascend(s, bound),
    ensures
        ids_ascend(s.filter(pred), bound),
{
    let flags = Seq::new(s.len(), |j: int| pred(s[j]));
    lemma_select_is_filter(s, flags, pred);
    lemma_select_ascends(s, flags, bound);
}

} // verus!
