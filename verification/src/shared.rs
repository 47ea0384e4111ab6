//! A world behind a reader-writer lock, for callers on many threads.
//!
//! Each operation takes the lock once, does one step on the world, and lets
//! the lock go: a step that changes the world takes it for writing, a look at
//! a room for reading. What a caller gets back depends on what the
//! other threads did before: the exact statements are those of
//! [`crate::world::World`], on which every step is made.

use crate::path::canonical;
use crate::room::RoomSnapshot;
use crate::service::{try_visit_room, visited};
use crate::world::World;
use vstd::prelude::*;

verus! {

/// `lock_api::RwLock`, the type behind `parking_lot::RwLock`: carried as it
/// is, with nothing known of what it holds.
#[verifier::external_type_specification]
#[verifier::external_body]
#[verifier::reject_recursive_types(R)]
#[verifier::reject_recursive_types(T)]
pub struct ExRwLock<R, T: ?Sized>(parking_lot::lock_api::RwLock<R, T>);

/// `parking_lot::RawRwLock`, the lock's own state: carried as it is.
#[verifier::external_type_specification]
#[verifier::external_body]
pub struct ExRawRwLock(parking_lot::RawRwLock);

/// The guard of `parking_lot::RwLock::write`: while it lives, its thread
/// holds the lock for writing; when it is dropped, the lock is free again.
/// The guard's own type is bounded by a trait of the lock's crate, so it is
/// kept in this struct, of which nothing is known but through [`held`].
#[verifier::external_body]
struct WriteHold<'a> {
    guard: parking_lot::RwLockWriteGuard<'a, Sealed>,
}

/// A world that is well formed, whoever holds it.
struct Sealed {
    world: World,
}

impl Sealed {
    #[verifier::type_invariant]
    spec fn sound(self) -> bool {
        self.world.wf()
    }

    /// Resolves on the world that is held, as [`World::try_get_visitor`]
    /// does, and leaves the world as that step made it.
    fn resolve(&mut self, visitor_id: usize, now: u64) -> (id: Option<usize>)
        ensures
            old(self).world.wf(),
            final(self).world.wf(),
            World::answered(old(self).world, final(self).world, visitor_id, now, id),
    {
        proof {
            use_type_invariant(&*self);
        }
        let mut world = World::new();
        std::mem::swap(&mut world, &mut self.world);
        let id = world.try_get_visitor(visitor_id, now);
        self.world = world;
        id
    }

    /// Moves on the world that is held, as [`World::try_move_visitor`] does,
    /// and leaves the world as that step made it.
    fn relocate(&mut self, visitor_id: usize, destination: &String, now: u64) -> (shown: Option<
        RoomSnapshot,
    >)
        ensures
            old(self).world.wf(),
            final(self).world.wf(),
            World::shown_after_move(
                old(self).world,
                final(self).world,
                visitor_id,
                canonical(destination@),
                now,
                shown,
            ),
    {
        proof {
            use_type_invariant(&*self);
        }
        let mut world = World::new();
        std::mem::swap(&mut world, &mut self.world);
        let shown = world.try_move_visitor(visitor_id, destination, now);
        self.world = world;
        shown
    }

    /// Serves one request on the world that is held, as [`try_visit_room`]
    /// does, and leaves the world as that made it.
    fn visit(&mut self, visitor_id: usize, path: &str, now: u64) -> (shown: Option<RoomSnapshot>)
        ensures
            old(self).world.wf(),
            final(self).world.wf(),
            visited(old(self).world, final(self).world, visitor_id, path@, now, shown),
    {
        proof {
            use_type_invariant(&*self);
        }
        let mut world = World::new();
        std::mem::swap(&mut world, &mut self.world);
        let shown = try_visit_room(&mut world, visitor_id, path, now);
        self.world = world;
        shown
    }

    /// What `viewer` is shown of the room that `path` names in the world that
    /// is held.
    fn look(&self, path: &String, viewer: usize) -> (shown: Option<RoomSnapshot>)
        ensures
            self.world.wf(),
            self.world.shown_of(canonical(path@), viewer, shown),
    {
        proof {
            use_type_invariant(self);
        }
        self.world.snapshot_of(path, viewer)
    }
}

/// `parking_lot::RwLock::new`: a lock around `state`. Nothing is claimed of
/// the lock.
#[verifier::external_body]
fn lock_around(state: Sealed) -> (lock: parking_lot::RwLock<Sealed>) {
    parking_lot::RwLock::new(state)
}

/// `parking_lot::RwLock::write`: waits until no other thread holds the lock
/// and returns the guard that holds it for writing. Nothing is claimed of what
/// the lock holds at that time. A thread that already holds the lock would
/// wait for ever: every function here takes it once and drops the guard
/// before it returns.
#[verifier::external_body]
fn lock_for_writing<'a>(lock: &'a parking_lot::RwLock<Sealed>) -> (hold: WriteHold<'a>) {
    WriteHold { guard: lock.write() }
}

/// `DerefMut::deref_mut` of `parking_lot::RwLockWriteGuard`: the value that
/// the lock holds, for as long as the guard is borrowed. Nothing is claimed
/// of the value.
#[verifier::external_body]
fn held<'a, 'b>(hold: &'a mut WriteHold<'b>) -> (state: &'a mut Sealed) {
    &mut *hold.guard
}

/// The guard of `parking_lot::RwLock::read`: while it lives, no thread holds
/// the lock for writing. Kept in a struct of its own for the reason given at
/// [`WriteHold`]; nothing is known of it but through [`seen`].
#[verifier::external_body]
struct ReadHold<'a> {
    guard: parking_lot::RwLockReadGuard<'a, Sealed>,
}

/// `parking_lot::RwLock::read`: waits until no thread holds the lock for
/// writing and returns the guard that holds it for reading. Nothing is
/// claimed of what the lock holds at that time. A thread that holds the lock
/// for writing would wait for ever: every function here takes the lock once.
#[verifier::external_body]
fn lock_for_reading<'a>(lock: &'a parking_lot::RwLock<Sealed>) -> (hold: ReadHold<'a>) {
    ReadHold { guard: lock.read() }
}

/// `Deref::deref` of `parking_lot::RwLockReadGuard`: the value that the lock
/// holds, for as long as the guard is borrowed. Nothing is claimed of the
/// value.
#[verifier::external_body]
fn seen<'a, 'b>(hold: &'a ReadHold<'b>) -> (state: &'a Sealed) {
    &*hold.guard
}

/// A world that many threads share.
pub struct SharedWorld {
    state: parking_lot::RwLock<Sealed>,
}

impl SharedWorld {
    /// A shared world without rooms or visitors.
    pub fn new() -> (shared: Self) {
        SharedWorld { state: lock_around(Sealed { world: World::new() }) }
    }

    /// Resolves a request made under `visitor_id` at `now`, as
    /// [`World::try_get_visitor`] does on the world as it is when the lock is
    /// won. `None` only where a new id is due and none is left. The answer is
    /// the exact one for some well-formed world, the one that the lock held:
    /// which world that was depends on the other threads.
    pub fn get_visitor(&self, visitor_id: usize, now: u64) -> (id: Option<usize>)
        ensures
            id.is_some() ==> id.unwrap() != 0,
            exists|before: World, after: World|
                before.wf() && after.wf() && #[trigger] World::answered(
                    before,
                    after,
                    visitor_id,
                    now,
                    id,
                ),
    {
        let mut guard = lock_for_writing(&self.state);
        let sealed = held(&mut guard);
        let ghost before = sealed.world;
        let id = sealed.resolve(visitor_id, now);
        proof {
            assert(World::answered(before, sealed.world, visitor_id, now, id));
        }
        id
    }

    /// Moves visitor `visitor_id` to the room that `destination` names at
    /// `now`, as [`World::try_move_visitor`] does on the world as it is when
    /// the lock is won, and returns what the visitor is shown of the room at
    /// that moment. `None` where that id was never assigned; nothing changes
    /// then. What is shown is exact for some well-formed world, the one that
    /// the lock held.
    pub fn move_visitor(&self, visitor_id: usize, destination: &String, now: u64) -> (shown: Option<
        RoomSnapshot,
    >)
        ensures
            exists|before: World, after: World|
                before.wf() && after.wf() && #[trigger] World::shown_after_move(
                    before,
                    after,
                    visitor_id,
                    canonical(destination@),
                    now,
                    shown,
                ),
    {
        let mut guard = lock_for_writing(&self.state);
        let sealed = held(&mut guard);
        let ghost before = sealed.world;
        let shown = sealed.relocate(visitor_id, destination, now);
        proof {
            assert(World::shown_after_move(
                before,
                sealed.world,
                visitor_id,
                canonical(destination@),
                now,
                shown,
            ));
        }
        shown
    }

    /// Serves one request made under `visitor_id` for the room that `path`
    /// names at `now`, under one hold of the lock: resolves the visitor,
    /// moves it, and returns what it is shown of the room, as
    /// [`try_visit_room`] does on the world as it is when the lock is won.
    /// `None` only where a new id is due and none is left. What is shown is
    /// exact for some well-formed world, the one that the lock held.
    pub fn visit_room(&self, visitor_id: usize, path: &str, now: u64) -> (shown: Option<
        RoomSnapshot,
    >)
        ensures
            exists|before: World, after: World|
                before.wf() && after.wf() && #[trigger] visited(
                    before,
                    after,
                    visitor_id,
                    path@,
                    now,
                    shown,
                ),
    {
        let mut guard = lock_for_writing(&self.state);
        let sealed = held(&mut guard);
        let ghost before = sealed.world;
        let shown = sealed.visit(visitor_id, path, now);
        proof {
            assert(visited(before, sealed.world, visitor_id, path@, now, shown));
        }
        shown
    }

    /// What `viewer` is shown of the room that `path` names, as
    /// [`World::snapshot_of`] tells it of the world as it is when the lock is
    /// won for reading. `None` where there is no such room then. What is
    /// shown is exact for some well-formed world, the one that the lock held.
    pub fn snapshot(&self, path: &String, viewer: usize) -> (shown: Option<RoomSnapshot>)
        ensures
            exists|world: World|
                world.wf() && #[trigger] world.shown_of(canonical(path@), viewer, shown),
    {
        let hold = lock_for_reading(&self.state);
        let sealed = seen(&hold);
        let shown = sealed.look(path, viewer);
        proof {
            assert(sealed.world.shown_of(canonical(path@), viewer, shown));
        }
        shown
    }
}

} // verus!
