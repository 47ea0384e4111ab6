use presence::shared::SharedWorld;

#[test]
fn shared_world_serves_the_scenario() {
    let shared = SharedWorld::new();
    let garden = "/garden".to_string();
    let pond = "/pond".to_string();
    let one = shared.get_visitor(0, 1).unwrap();
    assert_eq!(one, 1);
    assert_eq!(shared.move_visitor(one, &garden, 2).unwrap().visitors, Vec::<String>::new());
    let two = shared.get_visitor(0, 3).unwrap();
    assert_eq!(two, 2);
    assert_eq!(
        shared.move_visitor(two, &garden, 4).unwrap().visitors,
        vec!["Maple Twig".to_string()]
    );
    assert_eq!(
        shared.move_visitor(one, &garden, 5).unwrap().visitors,
        vec!["Maple Twig".to_string()]
    );
    assert_eq!(shared.move_visitor(one, &pond, 6).unwrap().visitors, Vec::<String>::new());
    assert_eq!(shared.move_visitor(two, &garden, 7).unwrap().visitors, Vec::<String>::new());
}

#[test]
fn shared_world_keeps_its_state_between_calls() {
    let shared = SharedWorld::new();
    for expected in 1..=20usize {
        assert_eq!(shared.get_visitor(0, 0), Some(expected));
    }
    assert_eq!(shared.get_visitor(13, 0), Some(13));
    assert_eq!(shared.get_visitor(21, 0), Some(21));
    assert_eq!(shared.get_visitor(40, 0), Some(22));
}

#[test]
fn shared_world_refuses_to_move_an_unknown_visitor() {
    let shared = SharedWorld::new();
    let hall = "/hall".to_string();
    assert!(shared.move_visitor(1, &hall, 0).is_none());
    assert!(shared.move_visitor(0, &hall, 0).is_none());
    let id = shared.get_visitor(0, 0).unwrap();
    assert!(shared.move_visitor(id, &hall, 1).is_some());
    assert!(shared.move_visitor(id + 1, &hall, 1).is_none());
}

#[test]
fn shared_world_shows_a_room_to_a_third_party() {
    let shared = SharedWorld::new();
    let garden = "/garden".to_string();
    let pond = "/pond".to_string();
    assert!(shared.snapshot(&garden, 0).is_none());
    let one = shared.get_visitor(0, 1).unwrap();
    let two = shared.get_visitor(0, 1).unwrap();
    shared.move_visitor(one, &garden, 2);
    shared.move_visitor(two, &garden, 2);
    assert_eq!(shared.snapshot(&garden, 3).unwrap().visitors.len(), 2);
    assert_eq!(shared.snapshot(&garden, one).unwrap().visitors.len(), 1);
    shared.move_visitor(one, &pond, 3);
    assert_eq!(
        shared.snapshot(&garden, 3).unwrap().visitors,
        vec!["Maple Twig".to_string()]
    );
    assert_eq!(shared.snapshot(&garden, two).unwrap().visitors, Vec::<String>::new());
    assert_eq!(shared.snapshot(&pond, 3).unwrap().visitors.len(), 1);
}

#[test]
fn shared_world_visit_room_resolves_moves_and_shows() {
    let shared = SharedWorld::new();
    assert_eq!(shared.visit_room(0, "/garden", 1).unwrap().visitors, Vec::<String>::new());
    assert_eq!(
        shared.visit_room(0, "garden/", 2).unwrap().visitors,
        vec!["Maple Twig".to_string()]
    );
    assert_eq!(
        shared.visit_room(1, "//garden", 3).unwrap().visitors,
        vec!["Maple Twig".to_string()]
    );
    assert_eq!(shared.visit_room(2, "/pond", 4).unwrap().visitors, Vec::<String>::new());
    let garden = "/garden".to_string();
    assert_eq!(shared.snapshot(&garden, 2).unwrap().visitors.len(), 1);
    assert_eq!(shared.snapshot(&garden, 1).unwrap().visitors.len(), 0);
    assert_eq!(shared.get_visitor(0, 5), Some(3));
}

#[test]
fn shared_world_keeps_one_room_for_every_spelling() {
    let shared = SharedWorld::new();
    let one = shared.get_visitor(0, 1).unwrap();
    let two = shared.get_visitor(0, 1).unwrap();
    shared.move_visitor(one, &"/garden".to_string(), 2);
    assert_eq!(
        shared.move_visitor(two, &"/garden/".to_string(), 2).unwrap().visitors,
        vec!["Maple Twig".to_string()]
    );
    assert_eq!(shared.snapshot(&"garden".to_string(), 0).unwrap().visitors.len(), 2);
}
