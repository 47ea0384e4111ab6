//! The world: every visitor and every room, and the two steps of a visit.

use crate::path::{canonical, canonical_path, lemma_canonical_is_idempotent};
use crate::room::{
    lemma_membership_mentions, lemma_with_member_membership, lemma_without_keeps_others,
    lemma_without_membership, descriptions, membership, mentions, with_member, without, Entry,
    Room, RoomSnapshot,
};
use crate::visitor::{newcomer, root_path, Visitor, VisitorView};
use std::collections::HashMap;
use vstd::prelude::*;

verus! {

broadcast use vstd::std_specs::hash::group_hash_axioms;

/// A room under the path that names it.
pub struct Place {
    pub path: String,
    pub room: Room,
}

/// Every room that was ever visited and every visitor that was ever assigned
/// an id. Nothing is ever removed from either.
///
/// Visitors are kept by id. The ids come from a counter that only grows, so
/// none is handed out twice whatever the registry holds. Rooms are kept in
/// the order of their first visit and found by comparing paths.
pub struct World {
    rooms: Vec<Place>,
    visitors: HashMap<usize, Visitor>,
    assigned: usize,
}

impl World {
    /// The paths of the rooms, in the order in which they were first visited.
    pub closed spec fn paths(self) -> Seq<Seq<char>> {
        self.rooms@.map_values(|p: Place| p.path@)
    }

    /// How many ids have been assigned. The ids are 1 up to this number.
    pub closed spec fn population(self) -> nat {
        self.assigned as nat
    }

    /// `id` has been assigned.
    pub open spec fn knows(self, id: usize) -> bool {
        1 <= id <= self.population()
    }

    /// The record of visitor `id`.
    pub closed spec fn visitor(self, id: usize) -> VisitorView {
        self.visitors@[id]@
    }

    /// A room exists under `path`.
    pub open spec fn has_room(self, path: Seq<char>) -> bool {
        self.paths().contains(path)
    }

    /// The occupants of the room under `path`, oldest entry first; none where
    /// there is no such room.
    pub closed spec fn occupants(self, path: Seq<char>) -> Seq<Entry> {
        if self.has_room(path) {
            self.rooms@[self.paths().index_of(path)].room.entries()
        } else {
            Seq::empty()
        }
    }

    /// Who is in the room under `path`: each id with its label.
    pub open spec fn members(self, path: Seq<char>) -> Map<usize, Seq<char>> {
        membership(self.occupants(path))
    }

    /// The id that a request made under `requested` is served under: its own
    /// if it has been assigned, else the next unused one.
    pub open spec fn resolution(self, requested: usize) -> usize {
        if self.knows(requested) {
            requested
        } else {
            (self.population() + 1) as usize
        }
    }

    /// Entry `k` of room `r` is of a known visitor that names this room and
    /// carries this label.
    spec fn housed(self, r: int, k: int) -> bool {
        let e = self.rooms@[r].room.entries()[k];
        &&& 1 <= e.0 <= self.assigned
        &&& self.visitors@[e.0].current_room@ == self.rooms@[r].path@
        &&& self.visitors@[e.0].description@ == e.1
    }

    /// The ids are 1, 2, 3, ... up to the counter, each with the record that
    /// carries it; every room is kept
    /// under the canonical form of its path, and no two rooms share one; no
    /// room holds a visitor twice; and whoever is in a room names it as its
    /// current room.
    pub closed spec fn wf(self) -> bool {
        &&& forall|id: usize| #[trigger] self.visitors@.contains_key(id) <==> 1 <= id <= self.assigned
        &&& forall|id: usize|
            self.visitors@.contains_key(id) ==> (#[trigger] self.visitors@[id]).id == id
        &&& self.paths().no_duplicates()
        &&& forall|r: int|
            0 <= r < self.paths().len() ==> canonical(#[trigger] self.paths()[r]) == self.paths()[r]
        &&& forall|r: int| 0 <= r < self.rooms@.len() ==> (#[trigger] self.rooms@[r]).room.wf()
        &&& forall|r: int, k: int|
            0 <= r < self.rooms@.len() && 0 <= k < self.rooms@[r].room.entries().len()
                ==> #[trigger] self.housed(r, k)
    }

    /// `after` is what `before` becomes when a request made under `requested`
    /// is resolved at `now`: a known id changes nothing, any other adds one
    /// visitor under the next unused id. No room changes.
    pub open spec fn resolved(before: World, after: World, requested: usize, now: u64) -> bool {
        let id = before.resolution(requested);
        &&& forall|p: Seq<char>| after.has_room(p) == before.has_room(p)
        &&& forall|p: Seq<char>| after.occupants(p) == before.occupants(p)
        &&& forall|other: usize|
            before.knows(other) ==> after.visitor(other) == before.visitor(other)
        &&& if before.knows(requested) {
            after.population() == before.population()
        } else {
            &&& after.population() == before.population() + 1
            &&& after.visitor(id) == newcomer(id, now)
        }
    }

    /// `after` is what `before` becomes when visitor `id` moves to the room
    /// under `destination` at `now`: the visitor names that room and was last
    /// seen at `now`; it stands last in that room, which exists from now on,
    /// and in no other; nobody else has moved.
    pub open spec fn moved(
        before: World,
        after: World,
        id: usize,
        destination: Seq<char>,
        now: u64,
    ) -> bool {
        &&& after.population() == before.population()
        &&& forall|other: usize|
            before.knows(other) && other != id ==> after.visitor(other) == before.visitor(other)
        &&& after.visitor(id) == (VisitorView {
            current_room: destination,
            last_seen: now,
            ..before.visitor(id)
        })
        &&& forall|p: Seq<char>| after.has_room(p) == (before.has_room(p) || p == destination)
        &&& forall|p: Seq<char>|
            after.occupants(p) == if p == destination {
                with_member(before.occupants(p), id, before.visitor(id).description)
            } else {
                without(before.occupants(p), id)
            }
    }

    /// `id` is the answer to a request made under `requested` at `now` on
    /// `before`, which `after` is from then on: the resolution of `requested`
    /// wherever one can be had, and no answer, with nothing changed, only
    /// where a new id is due and none is left.
    pub open spec fn answered(
        before: World,
        after: World,
        requested: usize,
        now: u64,
        id: Option<usize>,
    ) -> bool {
        &&& id.is_some() == (before.knows(requested) || before.population() < usize::MAX)
        &&& id.is_some() ==> {
            &&& id.unwrap() == before.resolution(requested)
            &&& id.unwrap() != 0
            &&& after.knows(id.unwrap())
            &&& World::resolved(before, after, requested, now)
        }
        &&& id.is_none() ==> after == before
    }

    /// `shown` is what visitor `id` gets for a move to the room under
    /// `destination` at `now` on `before`, which `after` is from then on: for
    /// a known visitor the move is made and `shown` lists everyone in the
    /// destination but the visitor; for any other id nothing is shown and
    /// nothing changed.
    pub open spec fn shown_after_move(
        before: World,
        after: World,
        id: usize,
        destination: Seq<char>,
        now: u64,
        shown: Option<RoomSnapshot>,
    ) -> bool {
        &&& shown.is_some() == before.knows(id)
        &&& shown.is_some() ==> {
            &&& World::moved(before, after, id, destination, now)
            &&& shown.unwrap()@ == descriptions(without(after.occupants(destination), id))
        }
        &&& shown.is_none() ==> after == before
    }

    /// `shown` is what `viewer` sees of the room under `path`: everyone in it
    /// but `viewer`, oldest entry first, and nothing where no such room exists.
    pub open spec fn shown_of(
        self,
        path: Seq<char>,
        viewer: usize,
        shown: Option<RoomSnapshot>,
    ) -> bool {
        &&& shown.is_some() == self.has_room(path)
        &&& shown.is_some() ==> shown.unwrap()@ == descriptions(
            without(self.occupants(path), viewer),
        )
    }

    /// Room `r` is the one that its path names.
    proof fn lemma_slot(self, r: int)
        requires
            self.paths().no_duplicates(),
            0 <= r < self.rooms@.len(),
        ensures
            self.has_room(self.rooms@[r].path@),
            self.paths().index_of(self.rooms@[r].path@) == r,
            self.occupants(self.rooms@[r].path@) == self.rooms@[r].room.entries(),
    {
        let p = self.rooms@[r].path@;
        assert(self.paths()[r] == p);
        let s = self.paths().index_of(p);
        assert(0 <= s < self.paths().len() && self.paths()[s] == p);
    }

    /// A world without rooms or visitors.
    pub fn new() -> (world: Self)
        ensures
            world.wf(),
            world.population() == 0,
            forall|p: Seq<char>| !world.has_room(p),
            forall|p: Seq<char>| world.occupants(p) == Seq::<Entry>::empty(),
    {
        World { rooms: Vec::new(), visitors: HashMap::new(), assigned: 0 }
    }

    /// How many ids have been assigned.
    pub fn count(&self) -> (n: usize)
        ensures
            n == self.population(),
    {
        self.assigned
    }

    /// The index of the room under `path`.
    fn find_room(&self, path: &String) -> (found: Option<usize>)
        ensures
            match found {
                Some(r) => r < self.rooms@.len() && self.rooms@[r as int].path@ == path@,
                None => !self.has_room(path@),
            },
    {
        let mut i: usize = 0;
        while i < self.rooms.len()
            invariant
                i <= self.rooms.len(),
                forall|j: int| 0 <= j < i ==> self.paths()[j] != path@,
            decreases self.rooms.len() - i,
        {
            if self.rooms[i].path == *path {
                return Some(i);
            }
            i += 1;
        }
        None
    }

    /// The record of visitor `id`, if that id has been assigned.
    pub fn lookup(&self, id: usize) -> (found: Option<&Visitor>)
        requires
            self.wf(),
        ensures
            found.is_some() == self.knows(id),
            self.knows(id) ==> found.unwrap()@ == self.visitor(id),
    {
        self.visitors.get(&id)
    }

    /// The room that `path` names, if there is one: the room under the
    /// canonical form of `path`.
    pub fn room(&self, path: &String) -> (found: Option<&Room>)
        requires
            self.wf(),
        ensures
            found.is_some() == self.has_room(canonical(path@)),
            found.is_some() ==> found.unwrap().entries() == self.occupants(canonical(path@)),
            found.is_some() ==> found.unwrap().wf(),
    {
        let key = canonical_path(path.as_str());
        match self.find_room(&key) {
            Some(r) => {
                proof {
                    self.lemma_slot(r as int);
                }
                Some(&self.rooms[r].room)
            },
            None => None,
        }
    }

    /// Resolves a request made under `visitor_id` at `now`, and returns the id
    /// that it is served under. An id that has been assigned is returned as
    /// it is, and nothing changes. Any other (0 asks for a new one) creates a
    /// visitor under the next unused id, with the default label, last seen at
    /// `now` and naming the root, in no room yet.
    pub fn get_visitor(&mut self, visitor_id: usize, now: u64) -> (id: usize)
        requires
            old(self).wf(),
            old(self).knows(visitor_id) || old(self).population() < usize::MAX,
        ensures
            final(self).wf(),
            id == old(self).resolution(visitor_id),
            final(self).knows(id),
            World::resolved(*old(self), *final(self), visitor_id, now),
    {
        if self.visitors.contains_key(&visitor_id) {
            return visitor_id;
        }
        let id = self.assigned + 1;
        self.visitors.insert(id, Visitor::new(id, now));
        self.assigned = id;
        proof {
            assert(self.paths() == old(self).paths());
            assert(self.rooms@ == old(self).rooms@);
            assert forall|r: int, k: int|
                0 <= r < self.rooms@.len() && 0 <= k < self.rooms@[r].room.entries().len()
                implies #[trigger] self.housed(r, k) by {
                assert(old(self).housed(r, k));
            }
        }
        id
    }

    /// Takes `id` out of room `r`.
    fn leave(&mut self, r: usize, id: usize)
        requires
            r < old(self).rooms@.len(),
        ensures
            final(self).visitors@ == old(self).visitors@,
            final(self).assigned == old(self).assigned,
            final(self).rooms@.len() == old(self).rooms@.len(),
            final(self).paths() == old(self).paths(),
            forall|q: int|
                0 <= q < old(self).rooms@.len() && q != r ==> final(self).rooms@[q] == old(
                    self,
                ).rooms@[q],
            final(self).rooms@[r as int].room.entries() == without(
                old(self).rooms@[r as int].room.entries(),
                id,
            ),
    {
        self.rooms[r].room.remove(id);
        assert(self.paths() =~= old(self).paths());
    }

    /// Puts `id` into room `r` under `description`.
    fn enter(&mut self, r: usize, id: usize, description: String)
        requires
            r < old(self).rooms@.len(),
        ensures
            final(self).visitors@ == old(self).visitors@,
            final(self).assigned == old(self).assigned,
            final(self).rooms@.len() == old(self).rooms@.len(),
            final(self).paths() == old(self).paths(),
            forall|q: int|
                0 <= q < old(self).rooms@.len() && q != r ==> final(self).rooms@[q] == old(
                    self,
                ).rooms@[q],
            final(self).rooms@[r as int].room.entries() == with_member(
                old(self).rooms@[r as int].room.entries(),
                id,
                description@,
            ),
    {
        self.rooms[r].room.insert(id, description);
        assert(self.paths() =~= old(self).paths());
    }

    /// Records that visitor `id` went to `destination` at `now`.
    fn relocate(&mut self, id: usize, destination: &String, now: u64)
        requires
            old(self).visitors@.contains_key(id),
        ensures
            final(self).rooms@ == old(self).rooms@,
            final(self).assigned == old(self).assigned,
            final(self).visitors@ == old(self).visitors@.insert(id, final(self).visitors@[id]),
            final(self).visitors@[id]@ == (VisitorView {
                current_room: destination@,
                last_seen: now,
                ..old(self).visitors@[id]@
            }),
    {
        let taken = self.visitors.remove(&id);
        let mut record = taken.unwrap();
        record.current_room = destination.clone();
        record.last_seen = now;
        self.visitors.insert(id, record);
        assert(self.visitors@ =~= old(self).visitors@.insert(id, self.visitors@[id]));
    }

    /// The occupants of room `q`; none where `q` is past the last room.
    spec fn listed(self, q: int) -> Seq<Entry> {
        if 0 <= q < self.rooms@.len() {
            self.rooms@[q].room.entries()
        } else {
            Seq::empty()
        }
    }

    /// A room that holds a visitor is the room that the visitor names.
    proof fn lemma_found_where_named(self, q: int, id: usize)
        requires
            self.wf(),
            0 <= q < self.rooms@.len(),
            mentions(self.rooms@[q].room.entries(), id),
        ensures
            1 <= id <= self.assigned,
            self.visitors@.contains_key(id),
            self.visitors@[id].current_room@ == self.rooms@[q].path@,
            self.visitors@[id].description@ == membership(self.rooms@[q].room.entries())[id],
    {
        let entries = self.rooms@[q].room.entries();
        let k = choose|k: int| 0 <= k < entries.len() && entries[k].0 == id;
        assert(self.housed(q, k));
        assert(self.rooms@[q].room.wf());
        lemma_membership_mentions(entries, id);
    }

    /// What the steps of a move add up to.
    proof fn lemma_move_steps(
        before: World,
        after: World,
        id: usize,
        destination: Seq<char>,
        now: u64,
        slot: int,
    )
        requires
            before.wf(),
            1 <= id <= before.assigned,
            after.assigned == before.assigned,
            after.visitors@ == before.visitors@.insert(id, after.visitors@[id]),
            after.visitors@[id]@ == (VisitorView {
                current_room: destination,
                last_seen: now,
                ..before.visitors@[id]@
            }),
            before.rooms@.len() <= after.rooms@.len() <= before.rooms@.len() + 1,
            0 <= slot < after.rooms@.len(),
            after.rooms@[slot].path@ == destination,
            canonical(destination) == destination,
            after.rooms@.len() > before.rooms@.len() ==> !before.has_room(destination),
            forall|q: int|
                0 <= q < before.rooms@.len() ==> after.rooms@[q].path@ == before.rooms@[q].path@,
            forall|q: int|
                0 <= q < after.rooms@.len() ==> #[trigger] after.listed(q) == if q == slot {
                    with_member(before.listed(q), id, before.visitors@[id].description@)
                } else {
                    without(before.listed(q), id)
                },
        ensures
            after.wf(),
            World::moved(before, after, id, destination, now),
    {
        let label = before.visitors@[id].description@;
        let n = before.rooms@.len() as int;
        // The paths: those of before, and the destination behind them if it is new.
        assert(after.paths().take(n) =~= before.paths());
        assert(after.paths()[slot] == destination);
        if slot < n {
            assert(before.paths()[slot] == destination);
        }
        assert forall|i: int, j: int|
            0 <= i < after.paths().len() && 0 <= j < after.paths().len() && i != j
            implies after.paths()[i] != after.paths()[j] by {
            if i < n && j < n {
                assert(before.paths()[i] == after.paths()[i]);
                assert(before.paths()[j] == after.paths()[j]);
            } else if i < n {
                assert(slot == n);
                assert(before.paths()[i] == after.paths()[i]);
            } else if j < n {
                assert(slot == n);
                assert(before.paths()[j] == after.paths()[j]);
            }
        }
        assert(after.paths().no_duplicates());
        assert forall|r: int| 0 <= r < after.paths().len() implies canonical(
            #[trigger] after.paths()[r],
        ) == after.paths()[r] by {
            if r < n {
                assert(before.paths()[r] == after.paths()[r]);
            }
        }
        assert forall|p: Seq<char>| after.has_room(p) == (before.has_room(p) || p == destination) by {
            if after.has_room(p) {
                let r = after.paths().index_of(p);
                if r < n {
                    assert(before.paths()[r] == p);
                } else {
                    assert(r == slot);
                }
            }
            if before.has_room(p) {
                let r = before.paths().index_of(p);
                assert(after.paths()[r] == p);
            }
        }
        assert forall|p: Seq<char>|
            after.occupants(p) == if p == destination {
                with_member(before.occupants(p), id, before.visitor(id).description)
            } else {
                without(before.occupants(p), id)
            } by {
            if after.has_room(p) {
                let r = after.paths().index_of(p);
                assert(after.paths()[r] == p);
                after.lemma_slot(r);
                after.lemma_slot(slot);
                assert(after.occupants(p) == after.listed(r));
                if r < n {
                    assert(before.paths()[r] == p);
                    before.lemma_slot(r);
                    assert(before.occupants(p) == before.listed(r));
                } else {
                    assert(r == slot);
                    assert(!before.has_room(p));
                }
            } else {
                assert(!before.has_room(p));
                assert(p != destination);
            }
        }
        // No room holds a visitor twice.
        assert forall|r: int| 0 <= r < after.rooms@.len() implies (#[trigger] after.rooms@[r]).room.wf() by {
            assert(after.listed(r) == after.rooms@[r].room.entries());
            if r < n {
                assert(before.rooms@[r].room.wf());
            }
            lemma_without_keeps_others(before.listed(r), id);
            lemma_with_member_membership(before.listed(r), id, label);
        }
        // Whoever is in a room names it.
        assert forall|r: int, k: int|
            0 <= r < after.rooms@.len() && 0 <= k < after.rooms@[r].room.entries().len()
            implies #[trigger] after.housed(r, k) by {
            let e = after.rooms@[r].room.entries()[k];
            let kept = without(before.listed(r), id);
            assert(after.listed(r) == after.rooms@[r].room.entries());
            lemma_without_keeps_others(before.listed(r), id);
            if r == slot && k == kept.len() {
                assert(e == (id, label));
            } else {
                assert(e == kept[k]);
                assert(before.listed(r).contains(e));
                let k0 = choose|k0: int| 0 <= k0 < before.listed(r).len() && before.listed(r)[k0] == e;
                assert(before.housed(r, k0));
                assert(e.0 != id);
                assert(after.visitors@[e.0] == before.visitors@[e.0]);
            }
        }
        assert forall|known: usize| after.visitors@.contains_key(known) implies (
        #[trigger] after.visitors@[known]).id == known by {
            assert(before.visitors@.contains_key(known));
            assert(before.visitors@[known].id == known);
            if known == id {
                assert(after.visitors@[known]@.id == before.visitors@[known]@.id);
            }
        }
    }

    /// Moves visitor `visitor_id` to the room that `destination` names at
    /// `now`, and returns that room. The room is the one under the canonical
    /// form of `destination`, so every spelling of a path leads to one room.
    /// The visitor leaves the room that it names, if it is in it; the
    /// destination is created empty if no room exists under that path; the
    /// visitor then names the destination, stands last in it, and was last
    /// seen at `now`. Nothing else changes.
    pub fn move_visitor(&mut self, visitor_id: usize, destination: &String, now: u64) -> (room:
        &Room)
        requires
            old(self).wf(),
            old(self).knows(visitor_id),
        ensures
            final(self).wf(),
            World::moved(*old(self), *final(self), visitor_id, canonical(destination@), now),
            room.entries() == final(self).occupants(canonical(destination@)),
            room.wf(),
    {
        let key = canonical_path(destination.as_str());
        let record = self.visitors.get(&visitor_id).unwrap();
        let previous = record.current_room.clone();
        let label = record.description.clone();
        let origin = self.find_room(&previous);
        if let Some(r) = origin {
            self.leave(r, visitor_id);
        }
        proof {
            assert forall|q: int| 0 <= q < self.rooms@.len() implies self.listed(q) == without(
                old(self).listed(q),
                visitor_id,
            ) by {
                if origin.is_some() && origin.unwrap() == q {
                    assert(self.rooms@[q].room.entries() == without(
                        old(self).rooms@[q].room.entries(),
                        visitor_id,
                    ));
                } else {
                    assert(self.rooms@[q] == old(self).rooms@[q]);
                    if mentions(old(self).listed(q), visitor_id) {
                        old(self).lemma_found_where_named(q, visitor_id);
                        assert(old(self).paths()[q] == previous@);
                        assert(old(self).has_room(previous@));
                        assert(old(self).paths()[origin.unwrap() as int] == previous@);
                        assert(false);
                    }
                    lemma_without_keeps_others(old(self).listed(q), visitor_id);
                }
            }
        }
        let ghost mid = *self;
        let found = self.find_room(&key);
        let slot = match found {
            Some(r) => r,
            None => {
                self.rooms.push(Place { path: key.clone(), room: Room::new() });
                self.rooms.len() - 1
            },
        };
        self.enter(slot, visitor_id, label);
        self.relocate(visitor_id, &key, now);
        proof {
            assert forall|q: int| 0 <= q < old(self).rooms@.len() implies self.rooms@[q].path@
                == old(self).rooms@[q].path@ by {
                assert(self.paths()[q] == mid.paths()[q]);
                assert(mid.paths()[q] == old(self).paths()[q]);
            }
            assert(self.paths()[slot as int] == key@);
            assert forall|q: int| 0 <= q < self.rooms@.len() implies #[trigger] self.listed(q)
                == if q == slot {
                with_member(old(self).listed(q), visitor_id, label@)
            } else {
                without(old(self).listed(q), visitor_id)
            } by {
                let kept = without(old(self).listed(q), visitor_id);
                lemma_without_keeps_others(old(self).listed(q), visitor_id);
                lemma_without_keeps_others(kept, visitor_id);
                if q < mid.rooms@.len() {
                    assert(mid.listed(q) == kept);
                }
            }
            if self.rooms@.len() > old(self).rooms@.len() {
                assert(mid.paths() == old(self).paths());
            }
            lemma_canonical_is_idempotent(destination@);
            World::lemma_move_steps(
                *old(self),
                *self,
                visitor_id,
                key@,
                now,
                slot as int,
            );
            self.lemma_slot(slot as int);
        }
        &self.rooms[slot].room
    }

    /// Resolves as [`World::get_visitor`] does, wherever that can be done:
    /// `None`, and nothing changed, only where a new id is due and every id
    /// that the machine can count has been assigned.
    pub fn try_get_visitor(&mut self, visitor_id: usize, now: u64) -> (id: Option<usize>)
        requires
            old(self).wf(),
        ensures
            final(self).wf(),
            id.is_some() == (old(self).knows(visitor_id) || old(self).population() < usize::MAX),
            id.is_some() ==> id.unwrap() == old(self).resolution(visitor_id) && final(self).knows(
                id.unwrap(),
            ) && World::resolved(*old(self), *final(self), visitor_id, now),
            id.is_none() ==> *final(self) == *old(self),
    {
        let known = self.visitors.contains_key(&visitor_id);
        if known || self.assigned < usize::MAX {
            Some(self.get_visitor(visitor_id, now))
        } else {
            None
        }
    }

    /// Moves as [`World::move_visitor`] does, wherever that can be done, and
    /// returns what the visitor is then shown of the destination: everyone in
    /// it but the visitor itself. `None`, and nothing changed, where
    /// `visitor_id` was never assigned.
    pub fn try_move_visitor(&mut self, visitor_id: usize, destination: &String, now: u64) -> (shown:
        Option<RoomSnapshot>)
        requires
            old(self).wf(),
        ensures
            final(self).wf(),
            shown.is_some() == old(self).knows(visitor_id),
            shown.is_some() ==> World::moved(
                *old(self),
                *final(self),
                visitor_id,
                canonical(destination@),
                now,
            ) && shown.unwrap()@ == descriptions(
                without(final(self).occupants(canonical(destination@)), visitor_id),
            ),
            shown.is_none() ==> *final(self) == *old(self),
    {
        if self.visitors.contains_key(&visitor_id) {
            let room = self.move_visitor(visitor_id, destination, now);
            Some(room.snapshot(visitor_id))
        } else {
            None
        }
    }

    /// What `viewer` is shown of the room that `path` names, which is the
    /// room under the canonical form of `path`: everyone in it but `viewer`,
    /// oldest entry first. `None` where there is no such room.
    pub fn snapshot_of(&self, path: &String, viewer: usize) -> (shown: Option<RoomSnapshot>)
        requires
            self.wf(),
        ensures
            shown.is_some() == self.has_room(canonical(path@)),
            shown.is_some() ==> shown.unwrap()@ == descriptions(
                without(self.occupants(canonical(path@)), viewer),
            ),
    {
        match self.room(path) {
            Some(room) => Some(room.snapshot(viewer)),
            None => None,
        }
    }

    /// An id that a resolution assigns is not zero and was never assigned
    /// before, and every id that was assigned stays assigned: no id is ever
    /// handed out twice.
    pub proof fn lemma_assigned_id_is_new(before: World, after: World, requested: usize, now: u64)
        requires
            before.wf(),
            !before.knows(requested),
            World::resolved(before, after, requested, now),
        ensures
            before.resolution(requested) != 0,
            !before.knows(before.resolution(requested)),
            after.knows(before.resolution(requested)),
            forall|other: usize|
                before.knows(other) ==> after.knows(other) && other != before.resolution(requested),
    {
    }

    /// A move assigns no id and forgets none.
    pub proof fn lemma_move_keeps_ids(
        before: World,
        after: World,
        id: usize,
        destination: Seq<char>,
        now: u64,
    )
        requires
            World::moved(before, after, id, destination, now),
        ensures
            forall|other: usize| before.knows(other) == after.knows(other),
    {
    }

    /// Two resolutions that each assign an id, with a move between them,
    /// assign different ids.
    pub proof fn lemma_assigned_ids_differ(
        first: World,
        second: World,
        third: World,
        fourth: World,
        mover: usize,
        destination: Seq<char>,
        now: u64,
    )
        requires
            first.wf(),
            third.wf(),
            World::resolved(first, second, 0, now),
            World::moved(second, third, mover, destination, now),
            World::resolved(third, fourth, 0, now),
        ensures
            first.resolution(0) != third.resolution(0),
    {
        World::lemma_assigned_id_is_new(first, second, 0, now);
        World::lemma_move_keeps_ids(second, third, mover, destination, now);
        World::lemma_assigned_id_is_new(third, fourth, 0, now);
    }

    /// `after` follows `before` by one resolution or one move.
    pub open spec fn step(before: World, after: World) -> bool {
        ||| exists|requested: usize, now: u64| #[trigger]
                World::resolved(before, after, requested, now)
        ||| exists|id: usize, destination: Seq<char>, now: u64| #[trigger]
                World::moved(before, after, id, destination, now)
    }

    /// The step from `before` to `after` is a resolution that assigned `id`.
    pub open spec fn assigned_by(before: World, after: World, id: usize) -> bool {
        exists|requested: usize, now: u64|
            !before.knows(requested) && #[trigger] World::resolved(before, after, requested, now)
                && id == before.resolution(requested)
    }

    /// Along any history of resolutions and moves, the count of assigned ids
    /// never goes down.
    pub proof fn lemma_population_never_shrinks(history: Seq<World>, i: int, j: int)
        requires
            forall|k: int|
                0 <= k < history.len() - 1 ==> World::step(#[trigger] history[k], history[k + 1]),
            0 <= i <= j < history.len(),
        ensures
            history[i].population() <= history[j].population(),
        decreases j - i,
    {
        if i < j {
            World::lemma_population_never_shrinks(history, i, j - 1);
            assert(World::step(history[j - 1], history[j - 1 + 1]));
        }
    }

    /// Along any history of resolutions and moves, from any world, two steps
    /// that each assign an id assign different ids; neither is zero, neither
    /// was assigned before its step, and each stays assigned ever after.
    pub proof fn lemma_ids_never_repeat(history: Seq<World>, i: int, j: int, a: usize, b: usize)
        requires
            forall|k: int|
                0 <= k < history.len() - 1 ==> World::step(#[trigger] history[k], history[k + 1]),
            0 <= i < j < history.len() - 1,
            World::assigned_by(history[i], history[i + 1], a),
            World::assigned_by(history[j], history[j + 1], b),
        ensures
            a != 0,
            b != 0,
            a != b,
            !history[i].knows(a),
            !history[j].knows(b),
            forall|k: int| i < k < history.len() ==> (#[trigger] history[k]).knows(a),
    {
        World::lemma_population_never_shrinks(history, i + 1, j);
        assert forall|k: int| i < k < history.len() implies (#[trigger] history[k]).knows(a) by {
            World::lemma_population_never_shrinks(history, i + 1, k);
        }
    }

    /// A visitor that a resolution has just created is in no room and names
    /// the root, and the resolution has changed no room.
    pub proof fn lemma_newcomer_is_nowhere(
        before: World,
        after: World,
        requested: usize,
        now: u64,
        path: Seq<char>,
    )
        requires
            before.wf(),
            !before.knows(requested),
            World::resolved(before, after, requested, now),
        ensures
            after.has_room(path) == before.has_room(path),
            after.occupants(path) == before.occupants(path),
            !after.members(path).contains_key(before.resolution(requested)),
            after.visitor(before.resolution(requested)).current_room == root_path(),
    {
        World::lemma_assigned_id_is_new(before, after, requested, now);
        if before.members(path).contains_key(before.resolution(requested)) {
            before.lemma_named_by_member(before.resolution(requested), path);
        }
    }

    /// A visitor that is in a room is known, names that room, stands there
    /// under its own label, and is in no other room.
    pub proof fn lemma_single_occupancy(self, id: usize, here: Seq<char>, there: Seq<char>)
        requires
            self.wf(),
            self.members(here).contains_key(id),
        ensures
            self.knows(id),
            self.has_room(here),
            self.visitor(id).current_room == here,
            self.members(here)[id] == self.visitor(id).description,
            self.members(there).contains_key(id) ==> there == here,
    {
        self.lemma_named_by_member(id, here);
        if self.members(there).contains_key(id) {
            self.lemma_named_by_member(id, there);
        }
    }

    /// A visitor that is in a room names it and stands there under its label.
    proof fn lemma_named_by_member(self, id: usize, here: Seq<char>)
        requires
            self.wf(),
            self.members(here).contains_key(id),
        ensures
            self.knows(id),
            self.has_room(here),
            self.visitor(id).current_room == here,
            self.members(here)[id] == self.visitor(id).description,
    {
        lemma_membership_mentions(self.occupants(here), id);
        let r = self.paths().index_of(here);
        assert(self.paths()[r] == here);
        self.lemma_found_where_named(r, id);
    }

    /// A move takes the visitor out of the membership of every room but the
    /// destination and puts it into that of the destination, under its label.
    /// From then on, what anyone else is shown of the destination has the
    /// visitor's entry, and what anyone is shown of another room has none.
    pub proof fn lemma_move_membership(
        before: World,
        after: World,
        id: usize,
        destination: Seq<char>,
        now: u64,
    )
        requires
            World::moved(before, after, id, destination, now),
        ensures
            after.members(destination) == before.members(destination).insert(
                id,
                before.visitor(id).description,
            ),
            forall|p: Seq<char>|
                p != destination ==> #[trigger] after.members(p) == before.members(p).remove(id),
            forall|viewer: usize|
                viewer != id ==> (#[trigger] without(after.occupants(destination), viewer)).contains(
                    (id, before.visitor(id).description),
                ),
            forall|p: Seq<char>, viewer: usize|
                p != destination ==> !mentions(
                    #[trigger] without(after.occupants(p), viewer),
                    id,
                ),
    {
        let label = before.visitor(id).description;
        lemma_with_member_membership(before.occupants(destination), id, label);
        assert forall|p: Seq<char>| p != destination implies #[trigger] after.members(p)
            == before.members(p).remove(id) by {
            lemma_without_membership(before.occupants(p), id);
        }
        assert forall|viewer: usize| viewer != id implies (#[trigger] without(
            after.occupants(destination),
            viewer,
        )).contains((id, label)) by {
            let there = after.occupants(destination);
            lemma_without_keeps_others(there, viewer);
            assert(there[there.len() - 1] == (id, label));
        }
        assert forall|p: Seq<char>, viewer: usize| p != destination implies !mentions(
            #[trigger] without(after.occupants(p), viewer),
            id,
        ) by {
            let there = after.occupants(p);
            let shown = without(there, viewer);
            lemma_without_keeps_others(before.occupants(p), id);
            lemma_without_keeps_others(there, viewer);
            if mentions(shown, id) {
                let k = choose|k: int| 0 <= k < shown.len() && shown[k].0 == id;
                assert(there.contains(shown[k]));
                let j = choose|j: int| 0 <= j < there.len() && there[j] == shown[k];
                assert(there[j].0 == id);
                assert(false);
            }
        }
    }

    /// A move to the room that the visitor is in leaves the membership of
    /// every room as it was, and the visitor naming that room; only the time
    /// at which the visitor was last seen becomes `now`.
    pub proof fn lemma_reentry_keeps_membership(
        before: World,
        after: World,
        id: usize,
        destination: Seq<char>,
        now: u64,
    )
        requires
            before.wf(),
            before.members(destination).contains_key(id),
            World::moved(before, after, id, destination, now),
        ensures
            forall|p: Seq<char>| #[trigger] after.members(p) == before.members(p),
            forall|p: Seq<char>| after.has_room(p) == before.has_room(p),
            after.visitor(id) == (VisitorView { last_seen: now, ..before.visitor(id) }),
    {
        World::lemma_move_membership(before, after, id, destination, now);
        before.lemma_named_by_member(id, destination);
        assert forall|p: Seq<char>| #[trigger] after.members(p) == before.members(p) by {
            if p == destination {
                assert(after.members(p) =~= before.members(p));
            } else {
                if before.members(p).contains_key(id) {
                    before.lemma_named_by_member(id, p);
                }
                assert(after.members(p) =~= before.members(p));
            }
        }
    }
}

} // verus!
