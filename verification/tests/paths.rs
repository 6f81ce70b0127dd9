use domino::paths::{
    components_of, extension_of, file_name, is_absolute, join_path, normalize,
    parent_of, starts_with_path, strip_path_prefix, with_json_extension,
};

#[test]
fn components_leave_out_what_counts_for_nothing() {
    assert_eq!(components_of("a/b"), vec!["a", "b"]);
    assert_eq!(components_of("a//b/./c/"), vec!["a", "b", "c"]);
    assert_eq!(components_of("./a"), vec![".", "a"]);
    assert_eq!(components_of("/a/../b"), vec!["/", "a", "..", "b"]);
    assert_eq!(components_of("/"), vec!["/"]);
    assert_eq!(components_of(""), Vec::<String>::new());
    assert_eq!(components_of("."), vec!["."]);
}

#[test]
fn paths_are_the_same_by_components() {
    assert_eq!(normalize("a/b"), normalize("a//b/"));
    assert_eq!(normalize("/a/./b"), normalize("/a/b"));
    assert_ne!(normalize("a/b"), normalize("./a/b"));
    assert_ne!(normalize("a/b"), normalize("/a/b"));
    assert_eq!(normalize("a//b/./c/"), "a/b/c");
    assert_eq!(normalize("/a//b/"), "/a/b");
    assert_eq!(normalize("./a/."), "./a");
    assert_eq!(normalize("/"), "/");
    assert_eq!(normalize(""), "");
}

#[test]
fn prefixes_go_by_components() {
    assert!(starts_with_path("libs/core/a.ts", "libs/core"));
    assert!(!starts_with_path("libs/core-extra/a.ts", "libs/core"));
    assert!(starts_with_path("a", ""));
    assert!(!starts_with_path("a/b", "."));
    assert_eq!(strip_path_prefix("/ws/a//b.ts", "/ws"), Some("a/b.ts".to_string()));
    assert_eq!(strip_path_prefix("/ws", "/ws/"), Some("".to_string()));
    assert_eq!(strip_path_prefix("/other/a", "/ws"), None);
    assert_eq!(strip_path_prefix("a/b", ""), Some("a/b".to_string()));
}

#[test]
fn joining_keeps_absolute_paths() {
    assert_eq!(join_path("/ws", "a/b"), "/ws/a/b");
    assert_eq!(join_path("/ws/", "a"), "/ws/a");
    assert_eq!(join_path("/ws", "/a"), "/a");
    assert_eq!(join_path("", "a"), "a");
    assert_eq!(join_path("a", ""), "a/");
    assert!(is_absolute("/a"));
    assert!(!is_absolute("a"));
    assert!(!is_absolute(""));
}

#[test]
fn names_extensions_and_parents() {
    assert_eq!(file_name("a/b.ts"), Some("b.ts".to_string()));
    assert_eq!(file_name("a/.."), None);
    assert_eq!(file_name("/"), None);
    assert_eq!(file_name("."), None);
    assert_eq!(extension_of("a/b.spec.ts"), Some("ts".to_string()));
    assert_eq!(extension_of("a.d/b"), None);
    assert_eq!(extension_of(".gitignore"), None);
    assert_eq!(extension_of("b."), Some("".to_string()));
    assert_eq!(parent_of("/a/b.ts"), Some("/a".to_string()));
    assert_eq!(parent_of("/a"), Some("/".to_string()));
    assert_eq!(parent_of("/"), None);
    assert_eq!(parent_of("a"), Some("".to_string()));
    assert_eq!(parent_of(""), None);
}

#[test]
fn json_is_added_where_an_extension_lacks() {
    assert_eq!(with_json_extension("/ws/tsconfig"), "/ws/tsconfig.json");
    assert_eq!(with_json_extension("/ws/./tsconfig/"), "/ws/tsconfig.json");
    assert_eq!(with_json_extension("/ws/tsconfig.base.json"), "/ws/tsconfig.base.json");
    assert_eq!(with_json_extension("/ws/.."), "/ws/..");
}
