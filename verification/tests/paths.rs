use faust::paths::{path_key_of, same_path};

#[test]
fn a_path_key_drops_what_components_ignore() {
    assert_eq!(path_key_of("/v/a/"), "/v/a");
    assert_eq!(path_key_of("/v//a/./b"), "/v/a/b");
    assert_eq!(path_key_of("./a/b"), "./a/b");
    assert_eq!(path_key_of("."), ".");
    assert_eq!(path_key_of("a/."), "a");
    assert_eq!(path_key_of("/"), "/");
    assert_eq!(path_key_of(""), "");
    assert_eq!(path_key_of("a/../b"), "a/../b");
}

#[test]
fn paths_are_the_same_by_their_components() {
    assert!(same_path("/v/a/", "/v/a"));
    assert!(!same_path("/v/a", "/v/b"));
    assert!(!same_path("./a", "a"));
    assert!(!same_path("/a", "a"));
}
