//! Presence tracking: which visitor is in which room, and who else is there.
//!
//! A [`world::World`] owns every visitor and every room. A visitor is resolved
//! (or created) by id, moved to a room by path, and then shown the other
//! occupants of that room. Time is a plain number handed in by the caller.

pub mod path;
pub mod room;
pub mod service;
pub mod shared;
pub mod visitor;
pub mod world;
