//! A room: the visitors that are in it, and what one of them sees of the rest.

use vstd::prelude::*;

verus! {

/// One occupant as a plain value: its id and its label.
pub type Entry = (usize, Seq<char>);

/// The entries that are left when every entry of `id` is taken out, in order.
pub open spec fn without(entries: Seq<Entry>, id: usize) -> Seq<Entry>
    decreases entries.len(),
{
    if entries.len() == 0 {
        Seq::empty()
    } else if entries.last().0 == id {
        without(entries.drop_last(), id)
    } else {
        without(entries.drop_last(), id).push(entries.last())
    }
}

/// The entries after `id` has entered under `description`: any earlier entry
/// of it is gone, and the new one stands last.
pub open spec fn with_member(entries: Seq<Entry>, id: usize, description: Seq<char>) -> Seq<Entry> {
    without(entries, id).push((id, description))
}

/// Who is present, by id, when the entries are read in order.
pub open spec fn membership(entries: Seq<Entry>) -> Map<usize, Seq<char>>
    decreases entries.len(),
{
    if entries.len() == 0 {
        Map::empty()
    } else {
        membership(entries.drop_last()).insert(entries.last().0, entries.last().1)
    }
}

/// The labels of the entries, in order.
pub open spec fn descriptions(entries: Seq<Entry>) -> Seq<Seq<char>> {
    entries.map_values(|e: Entry| e.1)
}

/// No id stands in two entries.
pub open spec fn distinct_ids(entries: Seq<Entry>) -> bool {
    forall|i: int, j: int| 0 <= i < j < entries.len() ==> entries[i].0 != entries[j].0
}

/// Some entry is of `id`.
pub open spec fn mentions(entries: Seq<Entry>, id: usize) -> bool {
    exists|i: int| 0 <= i < entries.len() && entries[i].0 == id
}

/// Taking `id` out keeps exactly the entries of other ids, in their order.
pub proof fn lemma_without_keeps_others(entries: Seq<Entry>, id: usize)
    ensures
        !mentions(without(entries, id), id),
        without(entries, id).len() <= entries.len(),
        forall|k: int|
            0 <= k < without(entries, id).len() ==> entries.contains(
                #[trigger] without(entries, id)[k],
            ),
        forall|j: int|
            0 <= j < entries.len() && entries[j].0 != id ==> without(entries, id).contains(
                #[trigger] entries[j],
            ),
        distinct_ids(entries) ==> distinct_ids(without(entries, id)),
        !mentions(entries, id) ==> without(entries, id) == entries,
    decreases entries.len(),
{
    let rest = entries.drop_last();
    let out = without(entries, id);
    if entries.len() > 0 {
        lemma_without_keeps_others(rest, id);
        let inner = without(rest, id);
        assert forall|k: int| 0 <= k < out.len() implies entries.contains(#[trigger] out[k]) by {
            if k < inner.len() {
                assert(rest.contains(inner[k]));
                let w = choose|w: int| 0 <= w < rest.len() && rest[w] == inner[k];
                assert(entries[w] == out[k]);
            } else {
                assert(entries[entries.len() - 1] == out[k]);
            }
        }
        assert forall|j: int| 0 <= j < entries.len() && entries[j].0 != id implies out.contains(
            #[trigger] entries[j],
        ) by {
            if j < rest.len() {
                assert(rest[j] == entries[j]);
                assert(inner.contains(rest[j]));
                let w = choose|w: int| 0 <= w < inner.len() && inner[w] == rest[j];
                assert(out[w] == entries[j]);
            } else {
                assert(out[out.len() - 1] == entries[j]);
            }
        }
        if distinct_ids(entries) {
            assert forall|i: int, j: int| 0 <= i < j < rest.len() implies rest[i].0 != rest[j].0 by {
                assert(rest[i] == entries[i] && rest[j] == entries[j]);
            }
            assert forall|i: int, j: int| 0 <= i < j < out.len() implies out[i].0 != out[j].0 by {
                if j == inner.len() {
                    assert(rest.contains(inner[i]));
                    let w = choose|w: int| 0 <= w < rest.len() && rest[w] == inner[i];
                    assert(entries[w] == out[i]);
                }
            }
        }
        if !mentions(entries, id) {
            assert(entries[entries.len() - 1].0 != id);
            assert forall|i: int| 0 <= i < rest.len() implies rest[i].0 != id by {
                assert(rest[i] == entries[i]);
            }
            assert(out =~= entries);
        }
    } else {
        assert(out =~= entries);
    }
}

/// Taking `id` out of the entries takes it out of the membership, and leaves
/// every other id with its label.
pub proof fn lemma_without_membership(entries: Seq<Entry>, id: usize)
    ensures
        membership(without(entries, id)) == membership(entries).remove(id),
    decreases entries.len(),
{
    if entries.len() > 0 {
        let rest = entries.drop_last();
        lemma_without_membership(rest, id);
        if entries.last().0 != id {
            assert(without(entries, id).drop_last() =~= without(rest, id));
        }
    }
    assert(membership(without(entries, id)) =~= membership(entries).remove(id));
}

/// Entering adds `id` to the membership under its label.
pub proof fn lemma_with_member_membership(entries: Seq<Entry>, id: usize, description: Seq<char>)
    ensures
        membership(with_member(entries, id, description)) == membership(entries).insert(
            id,
            description,
        ),
        distinct_ids(entries) ==> distinct_ids(with_member(entries, id, description)),
{
    lemma_without_membership(entries, id);
    lemma_without_keeps_others(entries, id);
    let kept = without(entries, id);
    assert(kept.push((id, description)).drop_last() =~= kept);
    assert(membership(with_member(entries, id, description)) =~= membership(entries).insert(
        id,
        description,
    ));
}

/// The ids of the membership are the ids that the entries mention, each with
/// the label of its last entry.
pub proof fn lemma_membership_mentions(entries: Seq<Entry>, id: usize)
    ensures
        membership(entries).contains_key(id) <==> mentions(entries, id),
        distinct_ids(entries) ==> forall|i: int|
            0 <= i < entries.len() && entries[i].0 == id ==> membership(entries)[id]
                == #[trigger] entries[i].1,
    decreases entries.len(),
{
    if entries.len() > 0 {
        let rest = entries.drop_last();
        lemma_membership_mentions(rest, id);
        if mentions(rest, id) {
            let w = choose|w: int| 0 <= w < rest.len() && rest[w].0 == id;
            assert(entries[w].0 == id);
        }
        if mentions(entries, id) {
            let w = choose|w: int| 0 <= w < entries.len() && entries[w].0 == id;
            if w < rest.len() {
                assert(rest[w].0 == id);
            }
        }
        if distinct_ids(entries) {
            assert forall|i: int, j: int| 0 <= i < j < rest.len() implies rest[i].0 != rest[j].0 by {
                assert(rest[i] == entries[i] && rest[j] == entries[j]);
            }
            assert forall|i: int| 0 <= i < entries.len() && entries[i].0 == id implies membership(
                entries,
            )[id] == #[trigger] entries[i].1 by {
                if i < rest.len() {
                    assert(rest[i] == entries[i]);
                }
            }
        }
    }
}

/// What a visitor is shown of a room in which nobody stands twice: one entry
/// for each occupant other than the viewer, under that occupant's label, and
/// no entry of the viewer.
pub proof fn lemma_shown_are_the_others(entries: Seq<Entry>, viewer: usize)
    requires
        distinct_ids(entries),
    ensures
        distinct_ids(without(entries, viewer)),
        !mentions(without(entries, viewer), viewer),
        membership(without(entries, viewer)) == membership(entries).remove(viewer),
        forall|k: int|
            0 <= k < without(entries, viewer).len() ==> {
                let e = #[trigger] without(entries, viewer)[k];
                e.0 != viewer && membership(entries).contains_key(e.0) && membership(entries)[e.0]
                    == e.1
            },
        forall|id: usize|
            id != viewer && #[trigger] membership(entries).contains_key(id) ==> without(
                entries,
                viewer,
            ).contains((id, membership(entries)[id])),
{
    let shown = without(entries, viewer);
    lemma_without_keeps_others(entries, viewer);
    lemma_without_membership(entries, viewer);
    assert forall|k: int| 0 <= k < shown.len() implies {
        let e = #[trigger] shown[k];
        e.0 != viewer && membership(entries).contains_key(e.0) && membership(entries)[e.0] == e.1
    } by {
        let e = shown[k];
        assert(entries.contains(e));
        let j = choose|j: int| 0 <= j < entries.len() && entries[j] == e;
        lemma_membership_mentions(entries, e.0);
        assert(entries[j].0 == e.0);
    }
    assert forall|id: usize|
        id != viewer && #[trigger] membership(entries).contains_key(id) implies shown.contains(
        (id, membership(entries)[id]),
    ) by {
        lemma_membership_mentions(entries, id);
        let j = choose|j: int| 0 <= j < entries.len() && entries[j].0 == id;
        assert(entries[j] == (id, membership(entries)[id]));
        assert(shown.contains(entries[j]));
    }
}

/// One occupant of a room.
pub struct Member {
    pub id: usize,
    pub description: String,
}

/// The visitors that are in one room, oldest entry first. The order of entry
/// is kept, so that what a visitor is shown of the room is one fixed list.
pub struct Room {
    pub visitors: Vec<Member>,
}

/// What one visitor is shown of a room: the labels of the others.
pub struct RoomSnapshot {
    pub visitors: Vec<String>,
}

impl View for RoomSnapshot {
    type V = Seq<Seq<char>>;

    open spec fn view(&self) -> Seq<Seq<char>> {
        self.visitors@.map_values(|s: String| s@)
    }
}

impl View for Room {
    type V = Map<usize, Seq<char>>;

    /// Who is in the room: each id with its label.
    open spec fn view(&self) -> Map<usize, Seq<char>> {
        membership(self.entries())
    }
}

impl Room {
    /// The occupants as plain values, oldest entry first.
    pub open spec fn entries(self) -> Seq<Entry> {
        self.visitors@.map_values(|m: Member| (m.id, m.description@))
    }

    /// No visitor is in the room twice.
    pub open spec fn wf(self) -> bool {
        distinct_ids(self.entries())
    }

    /// An empty room.
    pub fn new() -> (room: Self)
        ensures
            room.entries() == Seq::<Entry>::empty(),
            room@ == Map::<usize, Seq<char>>::empty(),
            room.wf(),
    {
        let room = Room { visitors: Vec::new() };
        assert(room.entries() =~= Seq::<Entry>::empty());
        room
    }

    /// The labels of everyone in the room but `visitor_id`, oldest entry first.
    pub fn snapshot(&self, visitor_id: usize) -> (snap: RoomSnapshot)
        ensures
            snap@ == descriptions(without(self.entries(), visitor_id)),
    {
        let mut labels: Vec<String> = Vec::new();
        let mut i: usize = 0;
        assert(self.entries().take(0) =~= Seq::<Entry>::empty());
        while i < self.visitors.len()
            invariant
                i <= self.visitors.len(),
                labels@.map_values(|s: String| s@) =~= descriptions(
                    without(self.entries().take(i as int), visitor_id),
                ),
            decreases self.visitors.len() - i,
        {
            proof {
                let next = self.entries().take(i + 1);
                assert(next.drop_last() =~= self.entries().take(i as int));
                assert(next.last() == self.entries()[i as int]);
                let before = without(self.entries().take(i as int), visitor_id);
                assert(descriptions(before.push(next.last())) =~= descriptions(before).push(
                    next.last().1,
                ));
            }
            if self.visitors[i].id != visitor_id {
                labels.push(self.visitors[i].description.clone());
            }
            i += 1;
        }
        assert(self.entries().take(i as int) =~= self.entries());
        RoomSnapshot { visitors: labels }
    }

    /// Takes `visitor_id` out of the room, if it is there.
    pub fn remove(&mut self, visitor_id: usize)
        ensures
            final(self).entries() == without(old(self).entries(), visitor_id),
            final(self)@ == old(self)@.remove(visitor_id),
            old(self).wf() ==> final(self).wf(),
    {
        let mut kept: Vec<Member> = Vec::new();
        let mut i: usize = 0;
        assert(self.entries().take(0) =~= Seq::<Entry>::empty());
        while i < self.visitors.len()
            invariant
                i <= self.visitors.len(),
                kept@.map_values(|m: Member| (m.id, m.description@)) =~= without(
                    self.entries().take(i as int),
                    visitor_id,
                ),
            decreases self.visitors.len() - i,
        {
            proof {
                let next = self.entries().take(i + 1);
                assert(next.drop_last() =~= self.entries().take(i as int));
                assert(next.last() == self.entries()[i as int]);
            }
            if self.visitors[i].id != visitor_id {
                kept.push(
                    Member {
                        id: self.visitors[i].id,
                        description: self.visitors[i].description.clone(),
                    },
                );
            }
            i += 1;
        }
        proof {
            assert(self.entries().take(i as int) =~= self.entries());
            lemma_without_membership(self.entries(), visitor_id);
            lemma_without_keeps_others(self.entries(), visitor_id);
        }
        self.visitors = kept;
    }

    /// Puts `visitor_id` into the room under `description`, in place of any
    /// earlier entry of it.
    pub fn insert(&mut self, visitor_id: usize, description: String)
        ensures
            final(self).entries() == with_member(old(self).entries(), visitor_id, description@),
            final(self)@ == old(self)@.insert(visitor_id, description@),
            old(self).wf() ==> final(self).wf(),
    {
        self.remove(visitor_id);
        proof {
            lemma_with_member_membership(old(self).entries(), visitor_id, description@);
            assert(self.entries().push((visitor_id, description@)) =~= self.visitors@.push(
                Member { id: visitor_id, description },
            ).map_values(|m: Member| (m.id, m.description@)));
        }
        self.visitors.push(Member { id: visitor_id, description });
    }
}

} // verus!
