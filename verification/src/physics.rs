//! A ledger of the shared physics world: handle allocation, the live
//! body and collider sets, and the command log that an embedding layer
//! replays against the real physics backend.
//!
//! The streaming core never inspects physics internals; it only tracks
//! which handles exist. Every mutation is also appended to `log`, so the
//! backend can mirror body creation and removal exactly, converting the
//! integer world units to its own scale.

use vstd::prelude::*;

verus! {

/// Collider shape of a physics body.
#[derive(Clone, Copy, Debug, PartialEq, Eq, Structural)]
pub enum BodyType {
    Circle,
    Rect,
}

/// Kind of surface a collision can report, as a collision-group bit
/// index.
#[derive(Clone, Copy, Debug, PartialEq, Eq, Structural)]
pub enum SurfaceType {
    Empty,
    Wall,
    Monster,
    Item,
}

/// The collision-group bit index assigned to a surface kind.
pub fn surface_type_to_bit(s: SurfaceType) -> (r: u128)
    ensures
        r == (match s {
            SurfaceType::Empty => 0u128,
            SurfaceType::Wall => 1u128,
            SurfaceType::Monster => 2u128,
            SurfaceType::Item => 3u128,
        }),
{
    match s {
        SurfaceType::Empty => 0,
        SurfaceType::Wall => 1,
        SurfaceType::Monster => 2,
        SurfaceType::Item => 3,
    }
}

/// One deferred mutation of the physics backend.
#[derive(Clone, Copy, Debug, PartialEq, Eq, Structural)]
pub enum PhysicsCommand {
    /// Insert one fixed body at world position `(x, y)` (the cell's
    /// origin) carrying one collider of the given shape spanning `size`
    /// world units per axis, to be known under these handles.
    CreateBody { x: i64, y: i64, size: u16, shape: BodyType, body: u64, collider: u64 },
    /// Remove the body under this handle together with its colliders.
    RemoveBody { body: u64 },
}

/// The tracked state of the shared physics world: live handles plus the
/// log of commands not yet replayed by the backend.
#[derive(Clone, Debug, PartialEq)]
pub struct PhysicsWorld {
    pub next_handle: u64,
    pub bodies: Vec<u64>,
    pub colliders: Vec<u64>,
    pub log: Vec<PhysicsCommand>,
}

impl PhysicsWorld {
    /// An empty world with no live handles and an empty log.
    pub fn new() -> (w: PhysicsWorld)
        ensures
            w.bodies@.len() == 0,
            w.colliders@.len() == 0,
            w.log@.len() == 0,
            w.next_handle == 0,
    {
        PhysicsWorld { next_handle: 0, bodies: Vec::new(), colliders: Vec::new(), log: Vec::new() }
    }

    /// Inserts one fixed body with one collider; returns the body and
    /// collider handles and logs the creation.
    pub fn insert_fixed(&mut self, x: i64, y: i64, size: u16, shape: BodyType) -> (h: (u64, u64))
        ensures
            final(self).bodies@ == old(self).bodies@.push(h.0),
            final(self).colliders@ == old(self).colliders@.push(h.1),
            final(self).log@ == old(self).log@.push(
                PhysicsCommand::CreateBody { x, y, size, shape, body: h.0, collider: h.1 },
            ),
            h.0 == old(self).next_handle,
            h.1 == old(self).next_handle.wrapping_add(1),
            final(self).next_handle == old(self).next_handle.wrapping_add(2),
    {
        let body: u64 = self.next_handle;
        let collider: u64 = self.next_handle.wrapping_add(1);
        self.next_handle = self.next_handle.wrapping_add(2);
        self.bodies.push(body);
        self.colliders.push(collider);
        self.log.push(PhysicsCommand::CreateBody { x, y, size, shape, body, collider });
        (body, collider)
    }

    /// Removes the body and its collider from the live sets, if present,
    /// and logs the removal; the backend removes attached colliders
    /// together with the body.
    pub fn remove_body(&mut self, body: u64, collider: u64)
        ensures
            final(self).next_handle == old(self).next_handle,
            final(self).log@ == old(self).log@.push(PhysicsCommand::RemoveBody { body }),
            old(self).bodies@.contains(body) ==> {
                &&& final(self).bodies@.to_multiset() == old(self).bodies@.to_multiset().remove(
                    body,
                )
                &&& final(self).bodies@.len() == old(self).bodies@.len() - 1
            },
            !old(self).bodies@.contains(body) ==> final(self).bodies@ == old(self).bodies@,
            old(self).colliders@.contains(collider) ==> {
                &&& final(self).colliders@.to_multiset()
                    == old(self).colliders@.to_multiset().remove(collider)
                &&& final(self).colliders@.len() == old(self).colliders@.len() - 1
            },
            !old(self).colliders@.contains(collider) ==> final(self).colliders@ == old(
                self,
            ).colliders@,
    {
        remove_handle(&mut self.bodies, body);
        remove_handle(&mut self.colliders, collider);
        self.log.push(PhysicsCommand::RemoveBody { body });
    }

    /// How many bodies are currently live.
    pub fn body_count(&self) -> (n: usize)
        ensures
            n == self.bodies@.len(),
    {
        self.bodies.len()
    }

    /// How many colliders are currently live.
    pub fn collider_count(&self) -> (n: usize)
        ensures
            n == self.colliders@.len(),
    {
        self.colliders.len()
    }

    /// Hands the accumulated command log to the backend and clears it.
    pub fn take_commands(&mut self) -> (cmds: Vec<PhysicsCommand>)
        ensures
            cmds@ == old(self).log@,
            final(self).log@.len() == 0,
            final(self).bodies@ == old(self).bodies@,
            final(self).colliders@ == old(self).colliders@,
            final(self).next_handle == old(self).next_handle,
    {
        let mut cmds: Vec<PhysicsCommand> = Vec::new();
        core::mem::swap(&mut self.log, &mut cmds);
        cmds
    }
}

/// Removes one occurrence of `h` from `v`, if any.
fn remove_handle(v: &mut Vec<u64>, h: u64)
    ensures
        old(v)@.contains(h) ==> final(v)@.to_multiset() == old(v)@.to_multiset().remove(h)
            && final(v)@.len() == old(v)@.len() - 1,
        !old(v)@.contains(h) ==> final(v)@ == old(v)@,
{
    let n: usize = v.len();
    let mut i: usize = 0;
    while i < n
        invariant
            n == v@.len(),
            i <= n,
            v@ == old(v)@,
            forall|j: int| 0 <= j < i ==> v@[j] != h,
        decreases n - i,
    {
        if v[i] == h {
            proof {
                v@.to_multiset_ensures();
            }
            v.remove(i);
            assert(old(v)@.contains(h));
            return ;
        }
        i += 1;
    }
    assert(!old(v)@.contains(h));
}

} // verus!
