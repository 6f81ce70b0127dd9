use domino::semantic::exports_map::{
    export_alias_key, export_candidates, export_target_path, export_targets,
    package_exports_aliases, package_exports_entries, JsonValue, Location,
};
use domino::semantic::resolve_options::{
    create_resolve_options, is_workspace_specifier, project_source_alias_target, ProjectFacts,
    ResolveOptions,
};
use domino::types::Project;
use serde_json::Value;
use std::path::Path;

const CWD: &str = "/workspace";

fn project(name: &str, root: &str, source_root: &str) -> Project {
    Project {
        name: name.to_string(),
        root: root.to_string(),
        source_root: source_root.to_string(),
        ts_config: None,
        implicit_dependencies: vec![],
        targets: vec![],
    }
}

fn make_projects(names: &[&str]) -> Vec<Project> {
    names
        .iter()
        .map(|n| project(n, "packages/placeholder", "packages/placeholder"))
        .collect()
}

fn value_of(value: &Value) -> JsonValue {
    match value {
        Value::String(text) => JsonValue::Text(text.clone()),
        Value::Array(items) => JsonValue::List(items.iter().map(value_of).collect()),
        Value::Object(map) => {
            JsonValue::Object(map.iter().map(|(k, v)| (k.clone(), value_of(v))).collect())
        }
        _ => JsonValue::Other,
    }
}

fn json(text: &str) -> JsonValue {
    let value: Value = serde_json::from_str(text).unwrap();
    value_of(&value)
}

fn first_existing(directories: &[&str], path: &str) -> String {
    let found = Path::new(path).ancestors().find(|a| directories.iter().any(|d| Path::new(d) == *a));
    found.map_or(path.to_string(), |a| a.to_str().unwrap().to_string())
}

/// What is known of a project in a workspace that holds the given directories.
fn facts_of(project: &Project, directories: &[&str], package_json: Option<&str>) -> ProjectFacts {
    let src = format!("{}/{}/src", CWD, project.source_root);
    let has_src_dir = directories.contains(&src.as_str());
    let exports = package_json.and_then(|text| {
        let value: Value = serde_json::from_str(text).unwrap();
        value.get("exports").map(value_of)
    });
    let root = format!("{}/{}", CWD, project.root);
    let candidates = match &exports {
        Some(exports) => export_candidates(&root, exports),
        None => vec![],
    };
    let locations = candidates
        .into_iter()
        .map(|path| Location { existing: first_existing(directories, &path), path })
        .collect();
    let canonical_source = project_source_alias_target(CWD, project, has_src_dir);
    ProjectFacts { has_src_dir, exports, canonical_source, locations }
}

fn options_of(
    project: Project,
    directories: &[&str],
    package_json: Option<&str>,
    resolve_package_exports: bool,
) -> ResolveOptions {
    let facts = facts_of(&project, directories, package_json);
    create_resolve_options(CWD, &vec![project], &vec![facts], resolve_package_exports, false)
}

fn alias_target(opts: &ResolveOptions, name: &str) -> Option<String> {
    opts.alias.iter().find(|alias| alias.key == name).map(|alias| alias.target.clone())
}

fn chat() -> Project {
    project("@scope/chat", "packages/chat", "packages/chat")
}

#[test]
fn test_alias_prefers_src_when_it_exists() {
    let my_lib = project("@scope/my-lib", "packages/my-lib", "packages/my-lib");
    let opts = options_of(
        my_lib,
        &["/workspace/packages/my-lib", "/workspace/packages/my-lib/src"],
        None,
        false,
    );
    let target = alias_target(&opts, "@scope/my-lib").unwrap();

    assert!(
        target.ends_with("packages/my-lib/src"),
        "Expected alias to point at src/ subdir, got: {}",
        target
    );
}

#[test]
fn test_alias_falls_back_when_no_src_dir() {
    let my_lib = project("@scope/my-lib", "packages/my-lib", "packages/my-lib");
    let opts = options_of(my_lib, &["/workspace/packages/my-lib"], None, false);
    let target = alias_target(&opts, "@scope/my-lib").unwrap();

    assert!(
        target.ends_with("packages/my-lib"),
        "Expected alias to fall back to project root (no src/), got: {}",
        target
    );
    assert!(
        !target.ends_with("packages/my-lib/src"),
        "Should NOT point at non-existent src/ subdir, got: {}",
        target
    );
}

#[test]
fn test_alias_skips_src_heuristic_when_source_root_already_ends_in_src() {
    let my_lib = project("@scope/my-lib", "packages/my-lib", "packages/my-lib/src");
    let opts = options_of(
        my_lib,
        &["/workspace/packages/my-lib/src", "/workspace/packages/my-lib/src/src"],
        None,
        false,
    );
    let target = alias_target(&opts, "@scope/my-lib").unwrap();

    assert!(
        target.ends_with("packages/my-lib/src"),
        "Expected alias to use source_root as-is (already ends in src), got: {}",
        target
    );
    // Must NOT double up to packages/my-lib/src/src
    assert!(!target.ends_with("src/src"), "Should not double-nest src/, got: {}", target);
}

#[test]
fn test_alias_skips_package_exports_when_disabled() {
    let opts = options_of(
        chat(),
        &["/workspace/packages/chat/src", "/workspace/packages/chat/src/shared/lib/ChatContext"],
        Some(
            r#"{
        "name": "@scope/chat",
        "exports": {
          "./chatContext": {
            "import": "./src/shared/lib/ChatContext/index.ts"
          }
        }
      }"#,
        ),
        false,
    );

    assert!(alias_target(&opts, "@scope/chat/chatContext$").is_none());
    assert!(alias_target(&opts, "@scope/chat").unwrap().ends_with("packages/chat/src"));
}

#[test]
fn test_alias_uses_exact_package_exports_before_src_fallback() {
    let opts = options_of(
        chat(),
        &["/workspace/packages/chat/src", "/workspace/packages/chat/src/shared/lib/ChatContext"],
        Some(
            r#"{
        "name": "@scope/chat",
        "exports": {
          "./chatContext": {
            "import": "./src/shared/lib/ChatContext/index.ts",
            "types": "./dist/chatContext.d.ts"
          }
        }
      }"#,
        ),
        true,
    );
    let export_target = alias_target(&opts, "@scope/chat/chatContext$").unwrap();
    let fallback_target = alias_target(&opts, "@scope/chat").unwrap();

    assert!(
        export_target.ends_with("packages/chat/src/shared/lib/ChatContext/index.ts"),
        "Expected exact export alias to point at package exports import target, got: {}",
        export_target
    );
    assert!(
        fallback_target.ends_with("packages/chat/src"),
        "Expected fallback alias to still use src heuristic, got: {}",
        fallback_target
    );
    assert!(
        opts.alias.iter().position(|alias| alias.key == "@scope/chat/chatContext$")
            < opts.alias.iter().position(|alias| alias.key == "@scope/chat"),
        "export alias must be declared before the broad fallback alias"
    );
}

#[test]
fn test_alias_uses_wildcard_package_exports() {
    let opts = options_of(
        chat(),
        &["/workspace/packages/chat/src", "/workspace/packages/chat/src/mocks"],
        Some(
            r#"{
        "name": "@scope/chat",
        "exports": {
          "./mocks/*": {
            "import": "./src/mocks/*.ts"
          }
        }
      }"#,
        ),
        true,
    );
    let target = alias_target(&opts, "@scope/chat/mocks/*").unwrap();

    assert!(
        target.ends_with("packages/chat/src/mocks/*.ts"),
        "Expected wildcard export alias to point at package exports import target, got: {}",
        target
    );
}

#[test]
fn test_alias_uses_next_export_condition_when_first_target_is_dist() {
    let opts = options_of(
        chat(),
        &[
            "/workspace/packages/chat/src",
            "/workspace/packages/chat/src/features",
            "/workspace/packages/chat/dist",
        ],
        Some(
            r#"{
        "name": "@scope/chat",
        "exports": {
          "./feature": {
            "import": "./dist/feature.js",
            "default": "./src/features/feature.ts"
          }
        }
      }"#,
        ),
        true,
    );
    let target = alias_target(&opts, "@scope/chat/feature$").unwrap();

    assert!(
        target.ends_with("packages/chat/src/features/feature.ts"),
        "Expected alias to skip dist import target and use source default target, got: {}",
        target
    );
}

#[test]
fn test_alias_ignores_package_exports_outside_source_target() {
    let opts = options_of(
        chat(),
        &["/workspace/packages/chat/src", "/workspace/packages/chat/dist"],
        Some(
            r#"{
        "name": "@scope/chat",
        "exports": {
          "./chatContext": {
            "import": "./dist/chatContext.js"
          }
        }
      }"#,
        ),
        true,
    );

    assert!(
        alias_target(&opts, "@scope/chat/chatContext$").is_none(),
        "dist package exports should not replace the source fallback alias"
    );
    assert!(
        alias_target(&opts, "@scope/chat").unwrap().ends_with("packages/chat/src"),
        "fallback alias should remain available"
    );
}

#[test]
fn test_no_panic_when_source_root_does_not_exist() {
    // source_root points to a directory that doesn't exist at all
    let ghost = project("@scope/ghost", "packages/ghost", "packages/ghost");
    let opts = options_of(ghost, &[], None, false);
    let target = alias_target(&opts, "@scope/ghost").unwrap();

    assert!(
        target.ends_with("packages/ghost"),
        "Expected alias to fall back to (non-existent) project root, got: {}",
        target
    );
}

#[test]
fn test_is_workspace_specifier_relative() {
    let projects = make_projects(&["@scope/lib"]);
    assert!(is_workspace_specifier("./utils", &projects, &vec![]));
    assert!(is_workspace_specifier("../shared/index", &projects, &vec![]));
}

#[test]
fn test_is_workspace_specifier_absolute() {
    let projects = make_projects(&["@scope/lib"]);
    assert!(is_workspace_specifier("/absolute/path", &projects, &vec![]));
}

#[test]
fn test_is_workspace_specifier_matching_project() {
    let projects = make_projects(&["@scope/lib", "shared-utils"]);
    assert!(is_workspace_specifier("@scope/lib", &projects, &vec![]));
    assert!(is_workspace_specifier("@scope/lib/deep/path", &projects, &vec![]));
    assert!(is_workspace_specifier("shared-utils", &projects, &vec![]));
    assert!(is_workspace_specifier("shared-utils/helpers", &projects, &vec![]));
}

#[test]
fn test_is_workspace_specifier_external() {
    let projects = make_projects(&["@scope/lib", "shared-utils"]);
    assert!(!is_workspace_specifier("react", &projects, &vec![]));
    assert!(!is_workspace_specifier("lodash/fp", &projects, &vec![]));
    assert!(!is_workspace_specifier("@angular/core", &projects, &vec![]));
    assert!(!is_workspace_specifier("@scope/other-lib", &projects, &vec![]));
}

#[test]
fn test_is_workspace_specifier_tsconfig_path_alias() {
    let projects = make_projects(&["ui-widgets"]);
    let tsconfig_paths = vec!["@acme/shared-ui-widgets".to_string()];

    assert!(
        !is_workspace_specifier("@acme/shared-ui-widgets", &projects, &vec![]),
        "should NOT match without tsconfig paths"
    );
    assert!(
        is_workspace_specifier("@acme/shared-ui-widgets", &projects, &tsconfig_paths),
        "should match with tsconfig path alias"
    );
    assert!(
        is_workspace_specifier("@acme/shared-ui-widgets/deep/path", &projects, &tsconfig_paths),
        "should match deep import under tsconfig path alias"
    );
    assert!(
        !is_workspace_specifier("react", &projects, &tsconfig_paths),
        "external packages should still be rejected"
    );
}

#[test]
fn names_that_only_begin_alike_are_external() {
    let projects = make_projects(&["lib"]);
    assert!(!is_workspace_specifier("library", &projects, &vec![]));
    assert!(!is_workspace_specifier("li", &projects, &vec![]));
    assert!(!is_workspace_specifier("", &projects, &vec![]));
    assert!(is_workspace_specifier("lib/", &projects, &vec![]));
}

#[test]
fn the_fixed_options_are_those_of_a_typescript_workspace() {
    let facts = facts_of(&chat(), &[], None);
    let opts = create_resolve_options(CWD, &vec![chat()], &vec![facts], true, true);
    assert_eq!(opts.extensions, vec![".ts", ".tsx", ".js", ".jsx", ".d.ts"]);
    assert_eq!(opts.extension_alias.len(), 2);
    assert_eq!(opts.extension_alias[0].0, ".js");
    assert_eq!(opts.extension_alias[0].1, vec![".ts", ".tsx", ".js"]);
    assert_eq!(opts.extension_alias[1].0, ".jsx");
    assert_eq!(opts.extension_alias[1].1, vec![".tsx", ".jsx"]);
    assert_eq!(opts.condition_names, vec!["import", "require", "types", "default"]);
    assert_eq!(opts.main_fields, vec!["main", "module", "types"]);
    assert_eq!(opts.main_files, vec!["index"]);
    assert_eq!(opts.tsconfig.as_deref(), Some("/workspace/tsconfig.base.json"));
    assert_eq!(alias_target(&opts, "@scope/chat").unwrap(), "/workspace/packages/chat");
}

#[test]
fn targets_come_in_the_order_of_their_conditions() {
    let value = json(r#"{"types": "./t", "require": "./r", "default": ["./d", {"import": "./i"}], "import": {"types": "./it"}}"#);
    assert_eq!(export_targets(&value), vec!["./it", "./d", "./i", "./t"]);
    assert_eq!(export_targets(&json("null")), Vec::<String>::new());
    assert_eq!(export_targets(&json(r#""./x""#)), vec!["./x"]);
}

#[test]
fn entries_are_subpaths_or_the_package_itself() {
    let entries = package_exports_entries(&json(r#"{".": "./src/index.ts", "./a": null, "./b": "./b.ts"}"#));
    let seen: Vec<(&str, usize)> =
        entries.iter().map(|e| (e.subpath.as_str(), e.targets.len())).collect();
    assert_eq!(seen, vec![(".", 1), ("./b", 1)]);
    let whole = package_exports_entries(&json(r#"{"import": "./src/index.ts"}"#));
    assert_eq!((whole.len(), whole[0].subpath.as_str()), (1, "."));
    assert!(package_exports_entries(&json("{}")).is_empty());
    assert!(package_exports_entries(&json("false")).is_empty());
}

#[test]
fn alias_keys_tell_exact_subpaths_from_patterns() {
    assert_eq!(export_alias_key("p", "."), Some("p$".to_string()));
    assert_eq!(export_alias_key("p", "./a"), Some("p/a$".to_string()));
    assert_eq!(export_alias_key("p", "./a/*"), Some("p/a/*".to_string()));
    assert_eq!(export_alias_key("p", "./"), None);
    assert_eq!(export_alias_key("p", "a"), None);
}

#[test]
fn targets_lie_below_the_project_root() {
    assert_eq!(export_target_path("/p", "./src/a.ts"), Some("/p/src/a.ts".to_string()));
    assert_eq!(export_target_path("/p", "./src/../a.ts"), None);
    assert_eq!(export_target_path("/p", "./a..b"), Some("/p/a..b".to_string()));
    assert_eq!(export_target_path("/p", "./"), None);
    assert_eq!(export_target_path("/p", "src/a.ts"), None);
}

#[test]
fn the_most_specific_alias_comes_first() {
    let exports = json(
        r#"{"./*": "./src/*", "./features/*": "./src/f/*", "./a": "./src/a.ts", "./long": "./src/l.ts"}"#,
    );
    let locations = export_candidates("/p", &exports)
        .into_iter()
        .map(|path| Location { path, existing: "/p/src".to_string() })
        .collect();
    let aliases = package_exports_aliases("p", "/p", &exports, &locations, "/p/src");
    let keys: Vec<&str> = aliases.iter().map(|alias| alias.key.as_str()).collect();
    assert_eq!(keys, vec!["p/long$", "p/a$", "p/features/*", "p/*"]);
    assert_eq!(aliases[0].target, "/p/src/l.ts");
}
