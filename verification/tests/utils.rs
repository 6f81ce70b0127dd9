use domino::types::Project;
use domino::utils::{
    is_source_file, line_to_offset, offset_to_line_col, ProjectIndex, TsconfigExcludes,
};

fn project(name: &str, root: &str, source_root: &str) -> Project {
    Project {
        name: name.to_string(),
        root: root.to_string(),
        source_root: source_root.to_string(),
        ts_config: None,
        implicit_dependencies: vec![],
        targets: vec![],
    }
}

fn index_of(projects: &Vec<Project>, cwd: &str) -> ProjectIndex {
    let mut excludes = Vec::new();
    for _ in projects {
        excludes.push(None);
    }
    ProjectIndex::new(projects, cwd, excludes)
}

fn excluding(projects: &Vec<Project>, files: &[&str]) -> ProjectIndex {
    let files: Vec<String> = files.iter().map(|f| f.to_string()).collect();
    let excludes = projects.iter().map(|_| Some(TsconfigExcludes::new(&files))).collect();
    ProjectIndex::new(projects, "/workspace", excludes)
}

fn with_tsconfig(mut project: Project) -> Project {
    project.ts_config = Some(format!("{}/tsconfig.lib.json", project.root));
    project
}

#[test]
fn test_is_source_file() {
    // Source files
    assert!(is_source_file("index.ts"));
    assert!(is_source_file("component.tsx"));
    assert!(is_source_file("utils.js"));
    assert!(is_source_file("app.jsx"));
    assert!(is_source_file("path/to/file.ts"));

    // Non-source files
    assert!(!is_source_file("styles.css"));
    assert!(!is_source_file("template.html"));
    assert!(!is_source_file("config.json"));
    assert!(!is_source_file("image.png"));
    assert!(!is_source_file("data.yaml"));
    assert!(!is_source_file("no-extension"));
}

#[test]
fn source_files_are_told_by_their_last_extension() {
    assert!(is_source_file("types.d.ts"));
    assert!(is_source_file("dir.css/file.js"));
    assert!(is_source_file("dir/file.ts/"));
    assert!(!is_source_file("dir.ts/file"));
    assert!(!is_source_file(".ts"));
    assert!(!is_source_file("file.TS"));
    assert!(!is_source_file("file.ts."));
    assert!(!is_source_file(""));
    assert!(!is_source_file(".."));
}

#[test]
fn test_line_to_offset() {
    let source = "line1\nline2\nline3\n";
    assert_eq!(line_to_offset(source, 0), Some(0));
    assert_eq!(line_to_offset(source, 1), Some(0));
    assert_eq!(line_to_offset(source, 2), Some(6)); // After "line1\n"
    assert_eq!(line_to_offset(source, 3), Some(12)); // After "line1\nline2\n"
}

#[test]
fn offsets_count_bytes_and_stay_at_the_end() {
    assert_eq!(line_to_offset("äö\nb", 2), Some(5));
    // Behind the last line nothing more is counted.
    assert_eq!(line_to_offset("a\nb\n", 3), Some(4));
    assert_eq!(line_to_offset("a\nb\n", 9), Some(4));
    // A last line without its end counts as if it had one.
    assert_eq!(line_to_offset("a\nbc", 3), Some(5));
    assert_eq!(line_to_offset("a\nbc", usize::MAX), Some(5));
    assert_eq!(line_to_offset("", 7), Some(0));
    // A carriage return is a byte of its line.
    assert_eq!(line_to_offset("a\r\nb", 2), Some(3));
    assert_eq!(line_to_offset("a\r\nb\r\nc", 3), Some(6));
    assert_eq!(line_to_offset("a\r", 2), Some(3));
    assert_eq!(line_to_offset("a\rb\n", 2), Some(4));
}

#[test]
fn test_offset_to_line_col() {
    let source = "line1\nline2\nline3\n";
    assert_eq!(offset_to_line_col(source, 0), (1, 1));
    assert_eq!(offset_to_line_col(source, 5), (1, 6));
    assert_eq!(offset_to_line_col(source, 6), (2, 1)); // After newline
    assert_eq!(offset_to_line_col(source, 12), (3, 1));
}

#[test]
fn columns_count_characters() {
    assert_eq!(offset_to_line_col("äöx", 4), (1, 3));
    // An offset inside a character belongs behind it.
    assert_eq!(offset_to_line_col("äöx", 3), (1, 3));
    assert_eq!(offset_to_line_col("a\nbc", 99), (2, 3));
    assert_eq!(offset_to_line_col("", 5), (1, 1));
}

#[test]
fn the_offset_of_a_line_leads_back_to_it() {
    let source = "first\n\nthird line\n\u{1F600}\nlast";
    for line in 1..=5 {
        let offset = line_to_offset(source, line).unwrap();
        assert_eq!(offset_to_line_col(source, offset), (line, 1));
    }
    let source = "first\r\n\r\nthird\r\nlast";
    for line in 1..=4 {
        let offset = line_to_offset(source, line).unwrap();
        assert_eq!(offset_to_line_col(source, offset), (line, 1));
    }
}

#[test]
fn the_place_of_an_offset_leads_back_to_it() {
    let source = "a\u{e4}b\r\n\n\u{1F600}c\nlast";
    for (offset, _) in source.char_indices() {
        let (line, column) = offset_to_line_col(source, offset);
        let start = line_to_offset(source, line).unwrap();
        let head: usize = source[start..].chars().take(column - 1).map(char::len_utf8).sum();
        assert_eq!(start + head, offset);
    }
}

#[test]
fn references_count_for_owners_in_their_order() {
    let projects = vec![
        with_tsconfig(project("one", "libs/shared", "libs/shared/src")),
        project("two", "libs/shared", "libs/shared/src"),
        project("three", "libs/shared", "libs/shared/src"),
    ];
    let index = excluding(&projects, &["libs/shared/src/a.spec.ts"]);
    let owning = index.get_owning_packages_by_path("libs/shared/src/a.spec.ts");
    assert_eq!(owning, vec!["one", "two", "three"]);
    let counted = index.get_package_names_by_path("libs/shared/src/a.spec.ts");
    assert_eq!(counted, vec!["two", "three"]);
    let counted = index.get_package_names_by_path("libs/shared/src/a.ts");
    assert_eq!(counted, owning);
}

#[test]
fn test_project_index() {
    let projects = vec![
        project("core", "libs/core/src", "libs/core/src"),
        project("nx", "libs/nx/src", "libs/nx/src"),
    ];
    let index = index_of(&projects, "/workspace");

    assert_eq!(
        index.get_package_names_by_path("libs/core/src/index.ts"),
        vec!["core".to_string()]
    );
    assert_eq!(index.get_package_names_by_path("libs/nx/src/cli.ts"), vec!["nx".to_string()]);
    assert_eq!(index.get_package_names_by_path("other/file.ts"), Vec::<String>::new());
}

#[test]
fn test_project_index_matches_relative_file_with_absolute_project_root() {
    let cwd = "/tmp/workspace";
    let projects = vec![project(
        "@terminal/core",
        "/tmp/workspace/packages/core",
        "/tmp/workspace/packages/core",
    )];
    let index = index_of(&projects, cwd);

    assert_eq!(
        index.get_owning_packages_by_path("packages/core/src/lib/certificates/base64ToText.ts"),
        vec!["@terminal/core".to_string()]
    );
}

#[test]
fn test_project_index_shared_source_root() {
    let projects = vec![
        project("app-desktop", "projects/app-desktop/src", "projects/app-desktop/src"),
        project("app-desktop-mv3", "projects/app-desktop/src", "projects/app-desktop/src"),
        project("other-project", "projects/other/src", "projects/other/src"),
    ];
    let index = index_of(&projects, "/workspace");

    // File in shared sourceRoot should match both projects
    let mut result = index.get_package_names_by_path("projects/app-desktop/src/main.ts");
    result.sort();
    assert_eq!(result, vec!["app-desktop", "app-desktop-mv3"]);

    // File in unique sourceRoot should match only one project
    let result = index.get_package_names_by_path("projects/other/src/index.ts");
    assert_eq!(result, vec!["other-project"]);

    // File outside all sourceRoots should match nothing
    let result = index.get_package_names_by_path("unknown/file.ts");
    assert!(result.is_empty());
}

#[test]
fn test_project_index_tsconfig_excludes() {
    let projects = vec![with_tsconfig(project(
        "ui-widgets",
        "libs/ui-widgets",
        "libs/ui-widgets/src",
    ))];
    let index = excluding(
        &projects,
        &["libs/ui-widgets/src/Grid.stories.tsx", "libs/ui-widgets/src/utils.spec.ts"],
    );

    assert_eq!(
        index.get_package_names_by_path("libs/ui-widgets/src/index.ts"),
        vec!["ui-widgets"],
        "normal source files should match"
    );
    assert!(
        index.get_package_names_by_path("libs/ui-widgets/src/Grid.stories.tsx").is_empty(),
        "stories files should be excluded"
    );
    assert!(
        index.get_package_names_by_path("libs/ui-widgets/src/utils.spec.ts").is_empty(),
        "spec files should be excluded"
    );
}

#[test]
fn test_get_owning_packages_skips_tsconfig_excludes() {
    let projects = vec![with_tsconfig(project(
        "ui-widgets",
        "libs/ui-widgets",
        "libs/ui-widgets/src",
    ))];
    let index = excluding(
        &projects,
        &["libs/ui-widgets/src/Grid.stories.tsx", "libs/ui-widgets/src/utils.spec.ts"],
    );

    // get_package_names_by_path excludes spec/stories (for reference traversal)
    assert!(
        index.get_package_names_by_path("libs/ui-widgets/src/utils.spec.ts").is_empty(),
        "filtered method should exclude spec files"
    );

    // get_owning_packages_by_path includes them (for direct changes)
    assert_eq!(
        index.get_owning_packages_by_path("libs/ui-widgets/src/utils.spec.ts"),
        vec!["ui-widgets"],
        "direct-change method should include spec files"
    );
    assert_eq!(
        index.get_owning_packages_by_path("libs/ui-widgets/src/Grid.stories.tsx"),
        vec!["ui-widgets"],
        "direct-change method should include stories files"
    );
    assert_eq!(
        index.get_owning_packages_by_path("libs/ui-widgets/src/index.ts"),
        vec!["ui-widgets"],
        "normal files work with both methods"
    );
}

#[test]
fn test_get_owning_packages_fast_path_no_root_entries() {
    let projects = vec![with_tsconfig(project("simple", "libs/simple", "libs/simple"))];
    let index = excluding(&projects, &["libs/simple/utils.spec.ts"]);

    // Filtered: spec excluded
    assert!(
        index.get_package_names_by_path("libs/simple/utils.spec.ts").is_empty(),
        "fast path: filtered method should exclude spec files"
    );

    // Unfiltered: spec included
    assert_eq!(
        index.get_owning_packages_by_path("libs/simple/utils.spec.ts"),
        vec!["simple"],
        "fast path: direct-change method should include spec files"
    );
}

#[test]
fn test_project_index_root_fallback() {
    let projects = vec![
        project("my-app", "apps/my-app", "apps/my-app/src"),
        project("my-lib", "libs/my-lib", "libs/my-lib/src"),
        // Project where root == sourceRoot (no fallback needed)
        project("simple", "libs/simple", "libs/simple"),
    ];
    let index = index_of(&projects, "/workspace");

    // Source files inside sourceRoot should match (existing behavior)
    assert_eq!(index.get_package_names_by_path("apps/my-app/src/main.ts"), vec!["my-app"]);

    // Config files inside root but outside sourceRoot should match via fallback
    assert_eq!(
        index.get_package_names_by_path("apps/my-app/project.json"),
        vec!["my-app"],
        "project.json inside root but outside sourceRoot should match"
    );
    assert_eq!(
        index.get_package_names_by_path("apps/my-app/jest.config.js"),
        vec!["my-app"],
        "jest.config.js inside root but outside sourceRoot should match"
    );
    assert_eq!(
        index.get_package_names_by_path("libs/my-lib/tsconfig.json"),
        vec!["my-lib"],
        "tsconfig.json inside root but outside sourceRoot should match"
    );

    // Files completely outside all roots should still not match
    assert!(index.get_package_names_by_path("unknown/file.ts").is_empty());

    // Project where root == sourceRoot should still work normally
    assert_eq!(index.get_package_names_by_path("libs/simple/index.ts"), vec!["simple"]);
}

#[test]
fn test_project_index_root_fallback_with_tsconfig_excludes() {
    let projects = vec![with_tsconfig(project(
        "ui-widgets",
        "libs/ui-widgets",
        "libs/ui-widgets/src",
    ))];
    let index = excluding(
        &projects,
        &["libs/ui-widgets/src/utils.spec.ts", "libs/ui-widgets/utils.spec.ts"],
    );

    // Source file in sourceRoot: normal behavior
    assert_eq!(
        index.get_package_names_by_path("libs/ui-widgets/src/index.ts"),
        vec!["ui-widgets"]
    );

    // Spec file in sourceRoot should be excluded by tsconfig
    assert!(
        index.get_package_names_by_path("libs/ui-widgets/src/utils.spec.ts").is_empty(),
        "spec files in sourceRoot should be excluded"
    );

    // Config file in root (outside sourceRoot) should match via fallback
    // (tsconfig excludes do NOT apply to root fallback)
    assert_eq!(
        index.get_package_names_by_path("libs/ui-widgets/jest.config.js"),
        vec!["ui-widgets"],
        "config files in root should match even with tsconfig excludes"
    );

    // Spec file at root level (outside sourceRoot) also matches via fallback
    assert_eq!(
        index.get_package_names_by_path("libs/ui-widgets/utils.spec.ts"),
        vec!["ui-widgets"],
        "root-level spec files match via fallback (tsconfig excludes do NOT apply)"
    );
}

#[test]
fn test_project_index_nested_projects() {
    let projects = vec![
        // Parent project where root == sourceRoot (no separate src dir)
        project("parent", "apps/parent", "apps/parent"),
        // Nested child project with separate src dir
        project("child", "apps/parent/child", "apps/parent/child/src"),
    ];
    let index = index_of(&projects, "/workspace");

    // Source file in child's sourceRoot matches both child (via sourceRoot)
    // and parent (via parent's sourceRoot being a prefix)
    let mut result = index.get_package_names_by_path("apps/parent/child/src/main.ts");
    result.sort();
    assert_eq!(result, vec!["child", "parent"]);

    // Config file in child's root but outside child's sourceRoot should
    // attribute to child (via root fallback) AND parent (via sourceRoot prefix)
    let mut result = index.get_package_names_by_path("apps/parent/child/project.json");
    result.sort();
    assert_eq!(
        result,
        vec!["child", "parent"],
        "child's project.json must attribute to child via root fallback even when parent's sourceRoot matches"
    );

    // File inside parent but outside child must attribute ONLY to parent.
    let result = index.get_package_names_by_path("apps/parent/parent-only.ts");
    assert_eq!(result, vec!["parent"], "file inside parent only must not attribute to child");
}

#[test]
fn test_project_index_workspace_root_project_excluded_from_fallback() {
    let projects = vec![
        project("workspace", ".", "src"),
        project("my-lib", "libs/my-lib", "libs/my-lib/src"),
    ];
    let index = index_of(&projects, "/workspace");

    // A config file at a nested project root (outside its sourceRoot) must
    // resolve ONLY to that project — not to the workspace-root project.
    let mut result = index.get_package_names_by_path("libs/my-lib/jest.config.js");
    result.sort();
    assert_eq!(
        result,
        vec!["my-lib"],
        "config file inside nested project must NOT also attribute to root workspace project"
    );

    // Likewise for a file inside the nested project's sourceRoot.
    let mut result = index.get_package_names_by_path("libs/my-lib/src/index.ts");
    result.sort();
    assert_eq!(
        result,
        vec!["my-lib"],
        "source file inside nested project must NOT also attribute to root workspace project"
    );

    // Workspace-root sourceRoot still resolves normally — the filter only
    // affects root_entries, not entries.
    let result = index.get_package_names_by_path("src/main.ts");
    assert_eq!(
        result,
        vec!["workspace"],
        "file inside workspace sourceRoot must still attribute to workspace"
    );
}

#[test]
fn test_project_index_empty_root_excluded_from_fallback() {
    let projects = vec![
        project("workspace", "", "src"),
        project("my-lib", "libs/my-lib", "libs/my-lib/src"),
    ];
    let index = index_of(&projects, "/workspace");

    let result = index.get_package_names_by_path("libs/my-lib/jest.config.js");
    assert_eq!(result, vec!["my-lib"], "empty-path root must not over-attribute");
}

#[test]
fn roots_are_compared_by_components() {
    let projects = vec![
        project("core", "libs/core/", "./libs/core/src"),
        project("far", "/elsewhere/far", "/elsewhere/far/src"),
        project("all", "/workspace", "/workspace"),
    ];
    let index = index_of(&projects, "/workspace/");
    // A leading dot makes another path; the root matches, and a name that only
    // begins alike does not.
    assert_eq!(index.get_package_names_by_path("libs/core/src/a.ts"), vec!["all", "core"]);
    assert_eq!(index.get_package_names_by_path("libs/core-extra/a.ts"), vec!["all"]);
    assert_eq!(index.get_package_names_by_path("./libs/core/src/a.ts"), vec!["core", "all"]);
    assert_eq!(index.get_package_names_by_path("/elsewhere/far/src/a.ts"), vec!["far", "all"]);
}

#[test]
fn excludes_count_only_for_projects_with_a_tsconfig() {
    let plain = vec![project("a", "libs/a", "libs/a")];
    let index = excluding(&plain, &["libs/a/x.spec.ts"]);
    assert_eq!(index.get_package_names_by_path("libs/a/x.spec.ts"), vec!["a"]);

    // Of two projects of one name the last one's tsconfig counts.
    let twice = vec![
        with_tsconfig(project("a", "libs/a", "libs/a")),
        with_tsconfig(project("a", "libs/b", "libs/b")),
    ];
    let excludes = vec![
        Some(TsconfigExcludes::new(&vec!["libs/a/x.ts".to_string()])),
        Some(TsconfigExcludes::new(&vec!["libs/b//y.ts".to_string()])),
    ];
    let index = ProjectIndex::new(&twice, "/workspace", excludes);
    assert_eq!(index.get_package_names_by_path("libs/a/x.ts"), vec!["a"]);
    assert!(index.get_package_names_by_path("libs/b/y.ts").is_empty());
}
