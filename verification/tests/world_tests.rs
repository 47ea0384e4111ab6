use presence::room::{Room, RoomSnapshot};
use presence::service::{rocket, try_visit_room, visit_room};
use presence::visitor::Visitor;
use presence::world::World;

fn path(text: &str) -> String {
    text.to_string()
}

fn ids_in(world: &World, room: &str) -> Vec<usize> {
    match world.room(&path(room)) {
        Some(found) => found.visitors.iter().map(|m| m.id).collect(),
        None => Vec::new(),
    }
}

fn shown(world: &World, room: &str, viewer: usize) -> Vec<String> {
    world.room(&path(room)).unwrap().snapshot(viewer).visitors
}

#[test]
fn new_world_is_empty() {
    let world = World::new();
    assert_eq!(world.count(), 0);
    assert!(world.lookup(0).is_none());
    assert!(world.lookup(1).is_none());
    assert!(world.room(&path("/")).is_none());
}

#[test]
fn first_assigned_id_is_one() {
    let mut world = World::new();
    assert_eq!(world.get_visitor(0, 10), 1);
    assert_eq!(world.count(), 1);
}

#[test]
fn new_visitor_has_defaults_and_is_in_no_room() {
    let mut world = World::new();
    let id = world.get_visitor(0, 42);
    let visitor = world.lookup(id).unwrap();
    assert_eq!(visitor.id, 1);
    assert_eq!(visitor.description, "Maple Twig");
    assert_eq!(visitor.last_seen, 42);
    assert_eq!(visitor.current_room, "/");
    assert!(world.room(&path("/")).is_none());
}

#[test]
fn assigned_ids_are_distinct_and_never_zero() {
    let mut world = World::new();
    let mut seen: Vec<usize> = Vec::new();
    for step in 0..50u64 {
        let id = world.get_visitor(0, step);
        assert_ne!(id, 0);
        assert!(!seen.contains(&id));
        seen.push(id);
        if step % 3 == 0 {
            world.move_visitor(id, &path("/hall"), step);
        }
    }
    assert_eq!(seen, (1..=50).collect::<Vec<usize>>());
    assert_eq!(world.count(), 50);
}

#[test]
fn known_id_resolves_to_itself_and_changes_nothing() {
    let mut world = World::new();
    let a = world.get_visitor(0, 5);
    let b = world.get_visitor(0, 6);
    assert_eq!(world.get_visitor(a, 99), a);
    assert_eq!(world.get_visitor(b, 99), b);
    assert_eq!(world.count(), 2);
    assert_eq!(world.lookup(a).unwrap().last_seen, 5);
    assert_eq!(world.lookup(b).unwrap().last_seen, 6);
}

#[test]
fn unknown_id_is_served_under_the_next_unused_id() {
    let mut world = World::new();
    assert_eq!(world.get_visitor(7, 1), 1);
    assert_eq!(world.get_visitor(7, 2), 2);
    assert_eq!(world.get_visitor(2, 3), 2);
    assert_eq!(world.count(), 2);
    assert!(world.lookup(7).is_none());
}

#[test]
fn move_sets_room_time_and_membership() {
    let mut world = World::new();
    let v = world.get_visitor(0, 1);
    {
        let room = world.move_visitor(v, &path("/garden"), 8);
        assert_eq!(room.visitors.len(), 1);
        assert_eq!(room.visitors[0].id, v);
        assert_eq!(room.visitors[0].description, "Maple Twig");
    }
    let visitor = world.lookup(v).unwrap();
    assert_eq!(visitor.current_room, "/garden");
    assert_eq!(visitor.last_seen, 8);
    assert_eq!(visitor.description, "Maple Twig");
    assert_eq!(ids_in(&world, "/garden"), vec![v]);
}

#[test]
fn move_takes_visitor_out_of_origin_and_into_destination() {
    let mut world = World::new();
    let v = world.get_visitor(0, 1);
    let a = world.get_visitor(0, 1);
    let b = world.get_visitor(0, 1);
    world.move_visitor(v, &path("/a"), 2);
    world.move_visitor(a, &path("/a"), 2);
    world.move_visitor(b, &path("/b"), 2);
    assert_eq!(ids_in(&world, "/a"), vec![v, a]);
    assert_eq!(ids_in(&world, "/b"), vec![b]);
    world.move_visitor(v, &path("/b"), 3);
    assert_eq!(ids_in(&world, "/a"), vec![a]);
    assert_eq!(ids_in(&world, "/b"), vec![b, v]);
    assert_eq!(shown(&world, "/a", a), Vec::<String>::new());
    assert_eq!(shown(&world, "/b", b), vec!["Maple Twig".to_string()]);
    assert_eq!(world.lookup(a).unwrap().current_room, "/a");
    assert_eq!(world.lookup(a).unwrap().last_seen, 2);
}

#[test]
fn visitor_is_in_exactly_the_room_it_names() {
    let mut world = World::new();
    let v = world.get_visitor(0, 0);
    let w = world.get_visitor(0, 0);
    let rooms = ["/", "/x", "/y", "/x/z", "/"];
    for (step, room) in rooms.iter().enumerate() {
        world.move_visitor(v, &path(room), step as u64);
        world.move_visitor(w, &path("/x"), step as u64);
        let named = world.lookup(v).unwrap().current_room.clone();
        assert_eq!(&named, room);
        for other in ["/", "/x", "/y", "/x/z"] {
            let inside = ids_in(&world, other).iter().filter(|id| **id == v).count();
            assert_eq!(inside, if other == named { 1 } else { 0 });
        }
    }
}

#[test]
fn reentry_keeps_membership_and_advances_last_seen() {
    let mut world = World::new();
    let v = world.get_visitor(0, 1);
    let w = world.get_visitor(0, 1);
    world.move_visitor(v, &path("/den"), 2);
    world.move_visitor(w, &path("/den"), 3);
    let mut before = ids_in(&world, "/den");
    world.move_visitor(v, &path("/den"), 9);
    let mut after = ids_in(&world, "/den");
    before.sort();
    after.sort();
    assert_eq!(before, after);
    assert_eq!(after, vec![v, w]);
    assert_eq!(world.lookup(v).unwrap().last_seen, 9);
    assert_eq!(world.lookup(v).unwrap().current_room, "/den");
    assert_eq!(world.lookup(w).unwrap().last_seen, 3);
}

#[test]
fn root_is_an_ordinary_room() {
    let mut world = World::new();
    let v = world.get_visitor(0, 1);
    assert!(world.room(&path("/")).is_none());
    world.move_visitor(v, &path("/"), 2);
    assert_eq!(ids_in(&world, "/"), vec![v]);
    world.move_visitor(v, &path("/other"), 3);
    assert_eq!(ids_in(&world, "/"), Vec::<usize>::new());
    assert!(world.room(&path("/")).is_some());
}

#[test]
fn every_spelling_of_a_path_leads_to_one_room() {
    let mut world = World::new();
    let v = world.get_visitor(0, 1);
    let w = world.get_visitor(0, 1);
    let u = world.get_visitor(0, 1);
    world.move_visitor(v, &path("/garden"), 2);
    {
        let room = world.move_visitor(w, &path("/garden/"), 2);
        assert_eq!(room.visitors.len(), 2);
    }
    {
        let room = world.move_visitor(u, &path("garden"), 2);
        assert_eq!(room.visitors.iter().map(|m| m.id).collect::<Vec<usize>>(), vec![v, w, u]);
    }
    assert_eq!(ids_in(&world, "/garden"), vec![v, w, u]);
    assert_eq!(ids_in(&world, "//garden//"), vec![v, w, u]);
    assert_eq!(world.lookup(w).unwrap().current_room, "/garden");
    assert_eq!(world.lookup(u).unwrap().current_room, "/garden");
    assert!(world.room(&path("/gard")).is_none());
    world.move_visitor(w, &path("garden/bed"), 3);
    assert_eq!(ids_in(&world, "/garden"), vec![v, u]);
    assert_eq!(ids_in(&world, "/garden/bed/"), vec![w]);
    assert_eq!(world.lookup(w).unwrap().current_room, "/garden/bed");
}

#[test]
fn concrete_scenario() {
    let mut world = World::new();
    let one = world.get_visitor(0, 1);
    assert_eq!(one, 1);
    assert_eq!(world.lookup(one).unwrap().current_room, "/");
    world.move_visitor(one, &path("/garden"), 2);
    let two = world.get_visitor(0, 3);
    assert_eq!(two, 2);
    world.move_visitor(two, &path("/garden"), 4);
    assert_eq!(shown(&world, "/garden", one), vec!["Maple Twig".to_string()]);
    assert_eq!(shown(&world, "/garden", two), vec!["Maple Twig".to_string()]);
    assert_eq!(ids_in(&world, "/garden"), vec![one, two]);
    world.move_visitor(one, &path("/pond"), 5);
    assert_eq!(ids_in(&world, "/garden"), vec![two]);
    assert_eq!(shown(&world, "/garden", 3), vec!["Maple Twig".to_string()]);
    assert_eq!(ids_in(&world, "/pond"), vec![one]);
}

#[test]
fn visit_room_resolves_moves_and_shows_the_others() {
    let mut world = rocket();
    assert_eq!(world.count(), 0);
    let first: RoomSnapshot = visit_room(&mut world, 0, "/garden", 1);
    assert_eq!(first.visitors, Vec::<String>::new());
    let second = visit_room(&mut world, 0, "garden/", 2);
    assert_eq!(second.visitors, vec!["Maple Twig".to_string()]);
    let again = visit_room(&mut world, 1, "//garden", 3);
    assert_eq!(again.visitors, vec!["Maple Twig".to_string()]);
    assert_eq!(world.count(), 2);
    assert_eq!(world.lookup(1).unwrap().last_seen, 3);
    assert_eq!(world.lookup(2).unwrap().last_seen, 2);
    let away = visit_room(&mut world, 2, "/pond", 4);
    assert_eq!(away.visitors, Vec::<String>::new());
    assert_eq!(ids_in(&world, "/garden"), vec![1]);
    assert_eq!(ids_in(&world, "/pond"), vec![2]);
    assert_eq!(ids_in(&world, "garden/"), vec![1]);
    assert_eq!(world.lookup(1).unwrap().current_room, "/garden");
}

#[test]
fn visit_room_without_segments_goes_to_the_root() {
    let mut world = rocket();
    let alone = visit_room(&mut world, 0, "", 1);
    assert_eq!(alone.visitors, Vec::<String>::new());
    let joined = visit_room(&mut world, 0, "///", 2);
    assert_eq!(joined.visitors, vec!["Maple Twig".to_string()]);
    assert_eq!(ids_in(&world, "/"), vec![1, 2]);
}

#[test]
fn visitor_new_has_the_default_label_and_names_the_root() {
    let v = Visitor::new(12, 34);
    assert_eq!(v.id, 12);
    assert_eq!(v.description, "Maple Twig");
    assert_eq!(v.last_seen, 34);
    assert_eq!(v.current_room, "/");
}

#[test]
fn room_snapshot_leaves_out_the_viewer_only() {
    let mut room = Room::new();
    assert_eq!(room.snapshot(1).visitors, Vec::<String>::new());
    room.insert(1, "v".to_string());
    room.insert(2, "a".to_string());
    room.insert(3, "b".to_string());
    assert_eq!(room.snapshot(1).visitors, vec!["a".to_string(), "b".to_string()]);
    assert_eq!(room.snapshot(2).visitors, vec!["v".to_string(), "b".to_string()]);
    assert_eq!(
        room.snapshot(9).visitors,
        vec!["v".to_string(), "a".to_string(), "b".to_string()]
    );
}

#[test]
fn room_insert_replaces_and_remove_takes_out() {
    let mut room = Room::new();
    room.insert(5, "old".to_string());
    room.insert(6, "six".to_string());
    room.insert(5, "new".to_string());
    assert_eq!(room.visitors.len(), 2);
    assert_eq!(room.snapshot(0).visitors, vec!["six".to_string(), "new".to_string()]);
    room.remove(6);
    assert_eq!(room.snapshot(0).visitors, vec!["new".to_string()]);
    room.remove(6);
    assert_eq!(room.visitors.len(), 1);
    room.remove(5);
    assert_eq!(room.visitors.len(), 0);
}

#[test]
fn try_get_visitor_resolves_like_get_visitor() {
    let mut world = World::new();
    assert_eq!(world.try_get_visitor(0, 1), Some(1));
    assert_eq!(world.try_get_visitor(0, 2), Some(2));
    assert_eq!(world.try_get_visitor(1, 3), Some(1));
    assert_eq!(world.try_get_visitor(9, 4), Some(3));
    assert_eq!(world.count(), 3);
    assert_eq!(world.lookup(1).unwrap().last_seen, 1);
    assert_eq!(world.lookup(3).unwrap().last_seen, 4);
}

#[test]
fn try_move_visitor_shows_the_others_or_changes_nothing() {
    let mut world = World::new();
    let v = world.get_visitor(0, 1);
    let w = world.get_visitor(0, 1);
    assert!(world.try_move_visitor(0, &path("/den"), 2).is_none());
    assert!(world.try_move_visitor(3, &path("/den"), 2).is_none());
    assert!(world.room(&path("/den")).is_none());
    assert_eq!(
        world.try_move_visitor(v, &path("/den"), 3).unwrap().visitors,
        Vec::<String>::new()
    );
    assert_eq!(
        world.try_move_visitor(w, &path("/den"), 4).unwrap().visitors,
        vec!["Maple Twig".to_string()]
    );
    assert_eq!(ids_in(&world, "/den"), vec![v, w]);
    assert_eq!(world.lookup(w).unwrap().last_seen, 4);
}

#[test]
fn snapshot_of_a_room_that_does_not_exist_is_none() {
    let mut world = World::new();
    let v = world.get_visitor(0, 1);
    assert!(world.snapshot_of(&path("/attic"), v).is_none());
    world.move_visitor(v, &path("/attic"), 2);
    assert_eq!(world.snapshot_of(&path("/attic"), v).unwrap().visitors, Vec::<String>::new());
    assert_eq!(
        world.snapshot_of(&path("/attic"), 0).unwrap().visitors,
        vec!["Maple Twig".to_string()]
    );
}

#[test]
fn try_visit_room_serves_like_visit_room() {
    let mut world = rocket();
    assert_eq!(try_visit_room(&mut world, 0, "den", 1).unwrap().visitors, Vec::<String>::new());
    assert_eq!(
        try_visit_room(&mut world, 5, "/den/", 2).unwrap().visitors,
        vec!["Maple Twig".to_string()]
    );
    assert_eq!(
        try_visit_room(&mut world, 1, "/den", 3).unwrap().visitors,
        vec!["Maple Twig".to_string()]
    );
    assert_eq!(world.count(), 2);
    assert_eq!(ids_in(&world, "/den"), vec![2, 1]);
    assert_eq!(world.lookup(1).unwrap().last_seen, 3);
}

#[test]
fn snapshot_of_looks_under_the_canonical_path() {
    let mut world = World::new();
    let v = world.get_visitor(0, 1);
    world.move_visitor(v, &path("a//b"), 2);
    assert_eq!(world.snapshot_of(&path("/a/b/"), 0).unwrap().visitors.len(), 1);
    assert_eq!(world.snapshot_of(&path("a/b"), v).unwrap().visitors.len(), 0);
    assert!(world.snapshot_of(&path("/a"), 0).is_none());
}
