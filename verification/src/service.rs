//! One visit from start to end: resolve the visitor, move it, and show it the
//! room.

use crate::path::canonical;
use crate::room::{descriptions, without, RoomSnapshot};
use crate::world::World;
use vstd::prelude::*;

verus! {

/// The world that a service starts with: no rooms, no visitors.
pub fn rocket() -> (world: World)
    ensures
        world.wf(),
        world.population() == 0,
        forall|p: Seq<char>| !world.has_room(p),
        forall|p: Seq<char>| world.occupants(p) == Seq::<crate::room::Entry>::empty(),
{
    World::new()
}

/// Serves one request made under `visitor_id` for the room that `path` names
/// at `now`: resolves the visitor, moves it to the room under the canonical
/// form of `path`, and returns what it is shown of that room, which is
/// everyone in it but the visitor itself.
pub fn visit_room(world: &mut World, visitor_id: usize, path: &str, now: u64) -> (snap:
    RoomSnapshot)
    requires
        old(world).wf(),
        old(world).knows(visitor_id) || old(world).population() < usize::MAX,
    ensures
        final(world).wf(),
        exists|mid: World|
            mid.wf() && #[trigger] World::resolved(*old(world), mid, visitor_id, now)
                && World::moved(
                mid,
                *final(world),
                old(world).resolution(visitor_id),
                canonical(path@),
                now,
            ),
        snap@ == descriptions(
            without(final(world).occupants(canonical(path@)), old(world).resolution(visitor_id)),
        ),
{
    let id = world.get_visitor(visitor_id, now);
    let ghost mid = *world;
    let destination = path.to_owned();
    let room = world.move_visitor(id, &destination, now);
    let snap = room.snapshot(id);
    proof {
        assert(World::resolved(*old(world), mid, visitor_id, now));
    }
    snap
}

/// `shown` is the answer to one request made under `visitor_id` for the room
/// that `path` names at `now` on `before`, which `after` is from then on.
/// Wherever the visitor can be resolved, it is resolved and moved to the room
/// under the canonical form of `path`, and `shown` lists everyone in that
/// room but the visitor. Where a new id is due and none is left, nothing is
/// shown and nothing changed.
pub open spec fn visited(
    before: World,
    after: World,
    visitor_id: usize,
    path: Seq<char>,
    now: u64,
    shown: Option<RoomSnapshot>,
) -> bool {
    let id = before.resolution(visitor_id);
    &&& shown.is_some() == (before.knows(visitor_id) || before.population() < usize::MAX)
    &&& shown.is_some() ==> {
        &&& exists|mid: World|
            mid.wf() && #[trigger] World::resolved(before, mid, visitor_id, now) && World::moved(
                mid,
                after,
                id,
                canonical(path),
                now,
            )
        &&& shown.unwrap()@ == descriptions(without(after.occupants(canonical(path)), id))
    }
    &&& shown.is_none() ==> after == before
}

/// Serves one request as [`visit_room`] does, wherever that can be done:
/// `None`, and nothing changed, only where a new id is due and every id that
/// the machine can count has been assigned.
pub fn try_visit_room(world: &mut World, visitor_id: usize, path: &str, now: u64) -> (shown:
    Option<RoomSnapshot>)
    requires
        old(world).wf(),
    ensures
        final(world).wf(),
        visited(*old(world), *final(world), visitor_id, path@, now, shown),
{
    if world.lookup(visitor_id).is_some() || world.count() < usize::MAX {
        Some(visit_room(world, visitor_id, path, now))
    } else {
        None
    }
}

} // verus!
