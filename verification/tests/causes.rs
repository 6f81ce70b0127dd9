use domino::causes::{sort_causes, sorted, CauseLog};
use domino::semantic::walk::{enters_directory, source_directory, source_path, unique_paths};
use domino::types::{AffectCause, Project};

fn direct(file: &str, symbol: Option<&str>, line: usize) -> AffectCause {
    AffectCause::DirectChange {
        file: file.to_string(),
        symbol: symbol.map(|s| s.to_string()),
        line,
    }
}

fn implicit(name: &str) -> AffectCause {
    AffectCause::ImplicitDependency { depends_on: name.to_string() }
}

fn names(list: &[&str]) -> Vec<String> {
    list.iter().map(|s| s.to_string()).collect()
}

#[test]
fn causes_are_sorted_and_counted_once() {
    let list = vec![
        implicit("z"),
        direct("b.ts", None, 3),
        direct("a.ts", Some("y"), 1),
        direct("b.ts", None, 3),
        direct("a.ts", None, 9),
        AffectCause::ReExported {
            through_file: "r".to_string(),
            symbol: "s".to_string(),
            source_file: "f".to_string(),
        },
        direct("a.ts", Some("x"), 2),
        direct("a.ts", Some("x"), 1),
        implicit("a"),
    ];
    let re_exported = list[5].clone();
    assert_eq!(
        sort_causes(&list),
        vec![
            direct("a.ts", None, 9),
            direct("a.ts", Some("x"), 1),
            direct("a.ts", Some("x"), 2),
            direct("a.ts", Some("y"), 1),
            direct("b.ts", None, 3),
            re_exported,
            implicit("a"),
            implicit("z"),
        ]
    );
}

#[test]
fn paths_in_causes_are_ordered_by_components() {
    // The separator comes before any other character.
    let list = vec![direct("a-b/c.ts", None, 1), direct("a/b.ts", None, 1)];
    assert_eq!(sort_causes(&list)[0], direct("a/b.ts", None, 1));
}

#[test]
fn every_kind_of_cause_has_its_place() {
    let list = vec![
        AffectCause::GlobalInvalidation { file: "f".to_string(), named_input: "n".to_string() },
        AffectCause::LockfileChange { dependency: "d".to_string(), importing_file: "i".to_string() },
        AffectCause::AssetChange {
            asset_file: "a".to_string(),
            referenced_in: "r".to_string(),
            line: 1,
        },
        implicit("i"),
        AffectCause::ReExported {
            through_file: "t".to_string(),
            symbol: "s".to_string(),
            source_file: "f".to_string(),
        },
        AffectCause::ImportedSymbol {
            source_project: "p".to_string(),
            symbol: "s".to_string(),
            via_file: "v".to_string(),
            source_file: "f".to_string(),
        },
        direct("d", None, 1),
    ];
    let mut backwards = list.clone();
    backwards.reverse();
    assert_eq!(sort_causes(&list), backwards);
}

#[test]
fn the_log_reports_projects_by_name() {
    let mut log = CauseLog::new();
    log.record_all(&names(&["b", "a"]), &vec![direct("f.ts", None, 2), direct("f.ts", None, 1)]);
    log.record_all(&names(&["b"]), &vec![direct("f.ts", None, 2)]);
    log.record_all(&names(&["c"]), &vec![]);
    let report = log.report();
    assert_eq!(report.len(), 2);
    assert_eq!(report[0].name, "a");
    assert_eq!(report[1].name, "b");
    assert_eq!(report[1].causes, vec![direct("f.ts", None, 1), direct("f.ts", None, 2)]);
}

#[test]
fn names_are_sorted_by_code_points() {
    assert_eq!(sorted(names(&["b", "a", "B", "ä", "ab"])), names(&["B", "a", "ab", "b", "ä"]));
}

#[test]
fn build_results_are_not_looked_into() {
    assert!(enters_directory("src"));
    assert!(enters_directory("builds"));
    assert!(!enters_directory("node_modules"));
    assert!(!enters_directory("dist"));
    assert!(!enters_directory("build"));
    assert!(!enters_directory(".git"));
}

#[test]
fn each_source_file_is_analyzed_once() {
    let found: Vec<_> = ["/ws/a/x.ts", "/ws/a/y.css", "/ws/b/z.tsx", "/ws/a//x.ts", "/else/w.js"]
        .iter()
        .filter_map(|path| source_path("/ws", path.to_string()))
        .collect();
    assert_eq!(found.len(), 4);
    let unique = unique_paths(found);
    let relative: Vec<&str> = unique.iter().map(|p| p.relative_path.as_str()).collect();
    assert_eq!(relative, vec!["a/x.ts", "b/z.tsx", "/else/w.js"]);
    assert_eq!(unique[0].file_path, "/ws/a/x.ts");
    let project = Project {
        name: "p".to_string(),
        root: "libs/p".to_string(),
        source_root: "libs/p/src".to_string(),
        ts_config: None,
        implicit_dependencies: vec![],
        targets: vec![],
    };
    assert_eq!(source_directory("/ws", &project), "/ws/libs/p/src");
}

#[test]
fn spare_causes_count_for_projects_without_others() {
    let mut log = CauseLog::new();
    log.record_all(&names(&["a"]), &vec![implicit("x"), implicit("w")]);
    let mut spare = CauseLog::new();
    spare.record_all(&names(&["a", "b"]), &vec![direct("s.ts", None, 1)]);
    let report = log.completed(spare).report();
    assert_eq!(report.len(), 2);
    assert_eq!(report[0].name, "a");
    assert_eq!(report[0].causes, vec![implicit("w"), implicit("x")]);
    assert_eq!(report[1].name, "b");
    assert_eq!(report[1].causes, vec![direct("s.ts", None, 1)]);
}
