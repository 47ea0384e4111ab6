//! A visitor: who it is, where it was last seen, and when.

use vstd::prelude::*;

verus! {

/// What a visitor record holds, as plain values.
pub struct VisitorView {
    pub id: usize,
    pub description: Seq<char>,
    pub last_seen: u64,
    pub current_room: Seq<char>,
}

pub struct Visitor {
    /// Never zero once assigned by a world, and never handed out twice.
    pub id: usize,
    /// The label that other occupants of a room see.
    pub description: String,
    /// The time of the last move.
    pub last_seen: u64,
    /// The path of the room that the visitor was last moved to.
    pub current_room: String,
}

impl View for Visitor {
    type V = VisitorView;

    open spec fn view(&self) -> VisitorView {
        VisitorView {
            id: self.id,
            description: self.description@,
            last_seen: self.last_seen,
            current_room: self.current_room@,
        }
    }
}

/// The label that every visitor gets.
pub open spec fn default_description() -> Seq<char> {
    "Maple Twig"@
}

/// The path of the room that a new visitor names before its first move.
pub open spec fn root_path() -> Seq<char> {
    "/"@
}

/// The record of a visitor that was created at `now` under `id`.
pub open spec fn newcomer(id: usize, now: u64) -> VisitorView {
    VisitorView {
        id,
        description: default_description(),
        last_seen: now,
        current_room: root_path(),
    }
}

impl Visitor {
    /// A visitor with the default label, last seen at `now`, naming the root.
    pub fn new(id: usize, now: u64) -> (visitor: Self)
        ensures
            visitor@ == newcomer(id, now),
    {
        Visitor {
            id,
            description: "Maple Twig".to_owned(),
            last_seen: now,
            current_room: "/".to_owned(),
        }
    }
}

} // verus!
