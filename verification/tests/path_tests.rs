use presence::path::canonical_path;

#[test]
fn canonical_path_of_nothing_is_the_root() {
    assert_eq!(canonical_path(""), "/");
    assert_eq!(canonical_path("/"), "/");
    assert_eq!(canonical_path("////"), "/");
}

#[test]
fn canonical_path_puts_one_slash_before_each_segment() {
    assert_eq!(canonical_path("garden"), "/garden");
    assert_eq!(canonical_path("/garden"), "/garden");
    assert_eq!(canonical_path("garden/"), "/garden");
    assert_eq!(canonical_path("/garden/"), "/garden");
    assert_eq!(canonical_path("a/b"), "/a/b");
    assert_eq!(canonical_path("//a///b//"), "/a/b");
    assert_eq!(canonical_path("/x/y/z"), "/x/y/z");
}

#[test]
fn canonical_path_keeps_every_other_character() {
    assert_eq!(canonical_path("caf\u{e9}/\u{6c60} pond/."), "/caf\u{e9}/\u{6c60} pond/.");
    assert_eq!(canonical_path("a b/../c"), "/a b/../c");
}

#[test]
fn canonical_path_is_idempotent() {
    for raw in ["", "/", "a", "a//b/", "/a/b", "///x", "x///"] {
        let once = canonical_path(raw);
        assert_eq!(canonical_path(&once), once);
    }
}
