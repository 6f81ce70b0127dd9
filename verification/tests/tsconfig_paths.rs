use domino::semantic::tsconfig_paths::{
    collect_tsconfig_paths, parse_tsconfig_path_prefixes, resolve_extends_specifier,
    tsconfig_json, PathAlias, TsconfigExtends, TsconfigFile, TsconfigJson, MAX_EXTENDS_DEPTH,
};
use serde_json::Value;

fn strings(value: &Value) -> Vec<String> {
    match value {
        Value::String(text) => TsconfigExtends::Single(text.clone()).into_vec(),
        Value::Array(items) => TsconfigExtends::Multiple(
            items.iter().map(|item| item.as_str().unwrap().to_string()).collect(),
        )
        .into_vec(),
        _ => vec![],
    }
}

/// A tsconfig file that holds the given text.
fn config(path: &str, content: &str) -> TsconfigFile {
    let value: Option<Value> =
        tsconfig_json(content).and_then(|text| serde_json::from_str(&text).ok());
    let config = value.map(|value| TsconfigJson {
        extends: value.get("extends").map_or(vec![], strings),
        paths: value.pointer("/compilerOptions/paths").and_then(|paths| paths.as_object()).map_or(
            vec![],
            |paths| {
                paths
                    .iter()
                    .map(|(key, targets)| PathAlias { key: key.clone(), targets: strings(targets) })
                    .collect()
            },
        ),
    });
    let canonical = path.replace("/./", "/");
    TsconfigFile { path: path.to_string(), canonical, config }
}

#[test]
fn test_parse_tsconfig_path_prefixes() {
    let files = vec![config(
        "/ws/tsconfig.base.json",
        r#"{
        "compilerOptions": {
          "paths": {
            "@scope/my-lib": ["libs/my-lib/src/index.ts"],
            "@scope/other-lib/*": ["libs/other-lib/src/*"]
          }
        }
      }"#,
    )];

    let prefixes = parse_tsconfig_path_prefixes(&files, "/ws");
    assert!(prefixes.contains(&"@scope/my-lib".to_string()));
    assert!(
        prefixes.contains(&"@scope/other-lib".to_string()),
        "wildcard suffix /* should be stripped"
    );
    assert_eq!(prefixes.len(), 2);
}

#[test]
fn test_parse_tsconfig_path_prefixes_missing_file() {
    let prefixes = parse_tsconfig_path_prefixes(&vec![], "/ws");
    assert!(prefixes.is_empty());
}

#[test]
fn test_parse_tsconfig_path_prefixes_with_comments() {
    let files = vec![config(
        "/ws/tsconfig.base.json",
        r#"{
        // This is a line comment
        "compilerOptions": {
          /* block comment */
          "paths": {
            "@scope/my-lib": ["libs/my-lib/src/index.ts"],
            "@scope/other-lib/*": ["libs/other-lib/src/*"] // trailing comment
          }
        }
      }"#,
    )];

    let prefixes = parse_tsconfig_path_prefixes(&files, "/ws");
    assert!(
        prefixes.contains(&"@scope/my-lib".to_string()),
        "should parse paths from JSONC with comments. Got: {:?}",
        prefixes
    );
    assert!(
        prefixes.contains(&"@scope/other-lib".to_string()),
        "should parse wildcard path from JSONC with comments. Got: {:?}",
        prefixes
    );
    assert_eq!(prefixes.len(), 2);
}

#[test]
fn test_parse_tsconfig_path_prefixes_with_extends() {
    let files = vec![
        config(
            "/ws/./tsconfig.shared.json",
            r#"{
        "compilerOptions": {
          "paths": {
            "@scope/shared-lib": ["libs/shared-lib/src/index.ts"],
            "@scope/overridden/*": ["libs/old-path/src/*"]
          }
        }
      }"#,
        ),
        config(
            "/ws/tsconfig.base.json",
            r#"{
        "extends": "./tsconfig.shared.json",
        "compilerOptions": {
          "paths": {
            "@scope/my-lib": ["libs/my-lib/src/index.ts"],
            "@scope/overridden/*": ["libs/new-path/src/*"]
          }
        }
      }"#,
        ),
    ];

    let prefixes = parse_tsconfig_path_prefixes(&files, "/ws");
    assert!(
        prefixes.contains(&"@scope/shared-lib".to_string()),
        "should inherit paths from extended config. Got: {:?}",
        prefixes
    );
    assert!(
        prefixes.contains(&"@scope/my-lib".to_string()),
        "should include paths from leaf config. Got: {:?}",
        prefixes
    );
    assert!(
        prefixes.contains(&"@scope/overridden".to_string()),
        "child should override parent path keys. Got: {:?}",
        prefixes
    );
    assert_eq!(prefixes.len(), 3);

    // The leaf's own aliases win.
    let paths = collect_tsconfig_paths(&files, "/ws/tsconfig.base.json");
    let overridden = paths.iter().find(|path| path.key == "@scope/overridden/*").unwrap();
    assert_eq!(overridden.targets, vec!["libs/new-path/src/*"]);
}

#[test]
fn test_parse_tsconfig_path_prefixes_circular_extends() {
    let files = vec![
        config(
            "/ws/./tsconfig.a.json",
            r#"{
        "extends": "./tsconfig.b.json",
        "compilerOptions": { "paths": { "@scope/a": ["a/src"] } }
      }"#,
        ),
        config(
            "/ws/./tsconfig.b.json",
            r#"{
        "extends": "./tsconfig.a.json",
        "compilerOptions": { "paths": { "@scope/b": ["b/src"] } }
      }"#,
        ),
        config(
            "/ws/tsconfig.base.json",
            r#"{
        "extends": "./tsconfig.a.json",
        "compilerOptions": { "paths": { "@scope/root": ["root/src"] } }
      }"#,
        ),
    ];

    let prefixes = parse_tsconfig_path_prefixes(&files, "/ws");
    assert!(
        prefixes.contains(&"@scope/root".to_string()),
        "should still return paths despite circular extends. Got: {:?}",
        prefixes
    );
    assert_eq!(prefixes, vec!["@scope/b", "@scope/a", "@scope/root"]);
}

#[test]
fn test_parse_tsconfig_path_prefixes_array_extends() {
    let files = vec![
        config(
            "/ws/./tsconfig.paths-a.json",
            r#"{
        "compilerOptions": {
          "paths": { "@scope/lib-a": ["libs/a/src/index.ts"] }
        }
      }"#,
        ),
        config(
            "/ws/./tsconfig.paths-b.json",
            r#"{
        "compilerOptions": {
          "paths": { "@scope/lib-b": ["libs/b/src/index.ts"] }
        }
      }"#,
        ),
        config(
            "/ws/tsconfig.base.json",
            r#"{
        "extends": ["./tsconfig.paths-a.json", "./tsconfig.paths-b.json"],
        "compilerOptions": {
          "paths": { "@scope/root": ["libs/root/src/index.ts"] }
        }
      }"#,
        ),
    ];

    let prefixes = parse_tsconfig_path_prefixes(&files, "/ws");
    assert!(
        prefixes.contains(&"@scope/lib-a".to_string()),
        "should inherit from first array extends entry. Got: {:?}",
        prefixes
    );
    assert!(
        prefixes.contains(&"@scope/lib-b".to_string()),
        "should inherit from second array extends entry. Got: {:?}",
        prefixes
    );
    assert!(
        prefixes.contains(&"@scope/root".to_string()),
        "should include paths from leaf config. Got: {:?}",
        prefixes
    );
    assert_eq!(prefixes.len(), 3);
}

#[test]
fn test_parse_tsconfig_path_prefixes_bare_package_extends_skipped() {
    let files = vec![config(
        "/ws/tsconfig.base.json",
        r#"{
        "extends": "@my-team/tsconfig-base",
        "compilerOptions": {
          "paths": { "@scope/my-lib": ["libs/my-lib/src/index.ts"] }
        }
      }"#,
    )];

    let prefixes = parse_tsconfig_path_prefixes(&files, "/ws");
    assert!(
        prefixes.contains(&"@scope/my-lib".to_string()),
        "should still return own paths when bare package extends is skipped. Got: {:?}",
        prefixes
    );
    assert_eq!(prefixes.len(), 1);
}

#[test]
fn extends_specifiers_lead_to_files() {
    assert_eq!(resolve_extends_specifier("/ws", "./a"), Some("/ws/a.json".to_string()));
    assert_eq!(resolve_extends_specifier("/ws", "../b.json"), Some("/ws/../b.json".to_string()));
    assert_eq!(resolve_extends_specifier("/ws", "/abs/c"), Some("/abs/c.json".to_string()));
    assert_eq!(resolve_extends_specifier("/ws", "pkg/tsconfig"), None);
    assert_eq!(resolve_extends_specifier("/ws", ""), None);
}

#[test]
fn comments_become_spaces() {
    assert_eq!(tsconfig_json("{ /* a */ \"b\": 1 } // c"), Some("{         \"b\": 1 }     ".to_string()));
    assert_eq!(tsconfig_json("{\"u\": \"// no comment\"}"), Some("{\"u\": \"// no comment\"}".to_string()));
    assert_eq!(tsconfig_json("{} /* never ends"), None);
}

#[test]
fn unreadable_files_count_as_visited() {
    let files = vec![
        config("/ws/./broken.json", "{ not json"),
        config(
            "/ws/tsconfig.base.json",
            r#"{"extends": ["./broken", "./missing"], "compilerOptions": {"paths": {"a/*": ["b"]}}}"#,
        ),
    ];
    assert_eq!(parse_tsconfig_path_prefixes(&files, "/ws"), vec!["a"]);
}

#[test]
fn chains_are_followed_down_to_a_depth() {
    let files: Vec<TsconfigFile> = (0..MAX_EXTENDS_DEPTH + 5)
        .map(|n| {
            let content = format!(
                r#"{{"extends": "./c{}", "compilerOptions": {{"paths": {{"p{}": []}}}}}}"#,
                n + 1,
                n
            );
            config(&format!("/ws/c{}.json", n), &content)
        })
        .collect();
    let paths = collect_tsconfig_paths(&files, "/ws/c0.json");
    assert_eq!(paths.len(), MAX_EXTENDS_DEPTH);
    assert_eq!(paths[0].key, "p63");
    assert_eq!(paths[63].key, "p0");
}
