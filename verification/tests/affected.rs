use domino::affected::ModuleMatch;
use domino::outcome::{add_implicit_dependencies, list_project_names, RunInfo};
use domino::semantic::analyzer::{parse_single_file, WorkspaceAnalyzer};
use domino::semantic::import_index::{resolved_file, Resolution};
use domino::trace::{AffectedState, Need};
use domino::types::{
    AffectCause, AffectedResult, AssetReference, ChangedFile, GlobalTrigger, LockfileStrategy,
    Project, Reference, TrueAffectedConfig,
};
use domino::utils::ProjectIndex;
use domino::{find_affected, find_affected_with_report, Action, Analysis, Changes, Start};
use std::path::Path;

fn project(name: &str, root: &str) -> Project {
    Project {
        name: name.to_string(),
        root: root.to_string(),
        source_root: root.to_string(),
        ts_config: None,
        implicit_dependencies: vec![],
        targets: vec![],
    }
}

/// A workspace whose relative imports lead to `.ts` files, and whose projects are
/// imported by name from their `index.ts`.
struct Workspace {
    config: TrueAffectedConfig,
    analyzer: WorkspaceAnalyzer,
    index: ProjectIndex,
    asset_references: Vec<(&'static str, AssetReference)>,
    dependencies: Option<Vec<ModuleMatch>>,
}

fn plain(path: &Path) -> String {
    let mut parts: Vec<&str> = vec![];
    for part in path.to_str().unwrap().split('/') {
        match part {
            "." => {}
            ".." => {
                parts.pop();
            }
            _ => parts.push(part),
        }
    }
    parts.join("/")
}

fn workspace(projects: Vec<Project>, files: &[(&str, &str)]) -> Workspace {
    let cwd = "/ws";
    let parsed = files
        .iter()
        .map(|(path, source)| parse_single_file(source.to_string(), path, path.to_string()))
        .collect();
    let analyzer =
        WorkspaceAnalyzer::new(projects.clone(), vec![], false).analyze_workspace(parsed);
    let resolutions = analyzer
        .import_requests(cwd)
        .iter()
        .map(|request| {
            let found = if request.specifier.starts_with('.') {
                plain(&Path::new(&request.context).join(&request.specifier)) + ".ts"
            } else {
                match projects.iter().find(|p| p.name == request.specifier) {
                    Some(p) => format!("/ws/{}/index.ts", p.root),
                    None => return Resolution::Fallback(None),
                }
            };
            Resolution::Found(found)
        })
        .collect();
    let analyzer = analyzer.build_import_index(cwd, &resolutions);
    let none = projects.iter().map(|_| None).collect();
    let index = ProjectIndex::new(&projects, cwd, none);
    let config = TrueAffectedConfig {
        cwd: cwd.to_string(),
        base: "main".to_string(),
        head: None,
        root_ts_config: None,
        projects,
        include_patterns: vec![],
        ignored_paths: vec![],
        lockfile_strategy: LockfileStrategy::default(),
        resolve_package_exports: false,
    };
    Workspace { config, analyzer, index, asset_references: vec![], dependencies: None }
}

fn changed(path: &str, lines: &[usize]) -> ChangedFile {
    ChangedFile { file_path: path.to_string(), changed_lines: lines.to_vec() }
}

fn changes(files: Vec<ChangedFile>) -> Changes {
    Changes {
        total_changed_files: files.len(),
        changed_files: files,
        global_triggers: vec![],
        lockfile_name: None,
        lockfile_changed: false,
    }
}

impl Workspace {
    /// The uses of a symbol in the files that import it; a dynamic import stands
    /// for its whole file, a re-export for the line that it stands on.
    fn cross_references(&self, file_path: &str, symbol: &str) -> Vec<Reference> {
        let mut found = vec![];
        for name in [symbol, "*"] {
            for importer in
                self.analyzer.import_index().importers_of(file_path, name).into_iter().flatten()
            {
                if importer.is_dynamic {
                    let file_path = importer.importing_file.clone();
                    found.push(Reference { file_path, line: 0, column: 0 });
                } else if name == "*" {
                    found.extend(
                        self.analyzer
                            .find_namespace_member_access(
                                &importer.importing_file,
                                &importer.local_name,
                                symbol,
                            )
                            .unwrap(),
                    );
                } else {
                    found.extend(
                        self.analyzer
                            .find_local_references(&importer.importing_file, &importer.local_name)
                            .unwrap(),
                    );
                }
            }
        }
        found
    }

    fn run(&self, mut analysis: Analysis, changes: &Changes) -> AffectedResult {
        loop {
            match analysis.step(&self.analyzer, &self.index) {
                Action::Continue => {}
                Action::References { file_path, symbol } => {
                    let found = self.cross_references(&file_path, &symbol);
                    analysis.references(&self.analyzer, Some(found));
                }
                Action::AssetReferences { asset_path } => {
                    let found = self
                        .asset_references
                        .iter()
                        .filter(|(asset, _)| *asset == asset_path)
                        .map(|(_, reference)| reference.clone())
                        .collect();
                    analysis.asset_references(Some(found));
                }
                Action::Dependencies => {
                    let found = self.dependencies.clone();
                    analysis.dependencies(&self.analyzer, &self.index, found);
                }
                Action::Finish => break,
            }
        }
        let triggers = changes.global_triggers.clone();
        let run = RunInfo {
            changed_files: changes.total_changed_files,
            version: "1.2.3",
            started_at_unix_secs: 77,
        };
        analysis.finish(&self.config, triggers, run)
    }

    fn affected(&self, changes: &Changes) -> Vec<String> {
        match find_affected(&self.config, changes) {
            Start::Known(result) => result.affected_projects,
            Start::Analyze(analysis) => {
                let result = self.run(analysis, changes);
                assert!(result.report.is_none());
                result.affected_projects
            }
        }
    }

    fn report(&self, changes: &Changes) -> AffectedResult {
        match find_affected_with_report(&self.config, changes) {
            Start::Known(result) => result,
            Start::Analyze(analysis) => self.run(analysis, changes),
        }
    }
}

const UTILS: &str = "export function used() {\n  return inner();\n}\nfunction inner() {\n  return 1;\n}\nexport function unused() {\n  return 2;\n}\n";

fn two_projects() -> Workspace {
    workspace(
        vec![project("lib", "libs/lib"), project("app", "apps/app")],
        &[
            ("libs/lib/utils.ts", UTILS),
            (
                "libs/lib/index.ts",
                "import { used, unused } from './utils';\nexport {\n  used,\n  unused,\n};\n",
            ),
            (
                "apps/app/main.ts",
                "import { used } from 'lib';\nexport function main() {\n  return used();\n}\n",
            ),
        ],
    )
}

#[test]
fn test_add_implicit_dependencies() {
    let mut app = project("app", "apps/app");
    app.implicit_dependencies = vec!["lib1".to_string(), "lib2".to_string()];
    let projects = vec![app, project("lib1", "libs/lib1"), project("lib2", "libs/lib2")];

    let mut affected = AffectedState::new(false);
    affected.mark(&vec!["lib1".to_string()], &vec![]);

    add_implicit_dependencies(&projects, &mut affected);

    assert!(affected.is_affected("lib1"));
    assert!(affected.is_affected("app")); // Should be added as implicit dependent
    assert!(!affected.is_affected("lib2"));
}

#[test]
fn implicit_dependencies_go_one_step() {
    let mut b = project("b", "b");
    b.implicit_dependencies = vec!["a".to_string()];
    let mut c = project("c", "c");
    c.implicit_dependencies = vec!["b".to_string()];
    let projects = vec![project("a", "a"), b, c];
    let mut state = AffectedState::new(true);
    state.mark(&vec!["a".to_string()], &vec![]);
    add_implicit_dependencies(&projects, &mut state);
    assert_eq!(state.affected_names(), vec!["a", "b"]);
    let report = state.cause_report();
    assert_eq!(report.len(), 1);
    assert_eq!(report[0].name, "b");
    assert_eq!(
        report[0].causes,
        vec![AffectCause::ImplicitDependency { depends_on: "a".to_string() }]
    );
}

#[test]
fn a_used_symbol_affects_the_projects_that_use_it() {
    let ws = two_projects();
    assert_eq!(ws.affected(&changes(vec![changed("libs/lib/utils.ts", &[2])])), vec!["app", "lib"]);
    // A symbol that is not exported is followed to the exports that use it.
    assert_eq!(ws.affected(&changes(vec![changed("libs/lib/utils.ts", &[5])])), vec!["app", "lib"]);
}

#[test]
fn an_unused_symbol_affects_its_own_project() {
    let ws = two_projects();
    assert_eq!(ws.affected(&changes(vec![changed("libs/lib/utils.ts", &[8])])), vec!["lib"]);
}

#[test]
fn nothing_is_affected_where_nothing_changed() {
    let ws = two_projects();
    assert!(ws.affected(&changes(vec![])).is_empty());
    let result = ws.report(&changes(vec![]));
    assert!(result.affected_projects.is_empty());
    assert!(result.report.is_none());
}

#[test]
fn files_outside_of_the_analyzed_ones_count_for_their_owner() {
    let ws = two_projects();
    let change = changes(vec![changed("apps/app/jest.config.js", &[]), changed("other.ts", &[1])]);
    assert_eq!(ws.affected(&change), vec!["app"]);
    let report = ws.report(&change).report.unwrap();
    assert_eq!(
        report.projects[0].causes,
        vec![AffectCause::DirectChange {
            file: "apps/app/jest.config.js".to_string(),
            symbol: None,
            line: 0
        }]
    );
}

#[test]
fn namespace_and_dynamic_imports_are_followed() {
    let ws = workspace(
        vec![project("lib", "lib"), project("ns", "ns"), project("dyn", "dyn"), project("far", "far")],
        &[
            ("lib/index.ts", "export const a = 1;\nexport const b = 2;\n"),
            ("ns/index.ts", "import * as all from 'lib';\nexport const c = all.a;\n"),
            ("dyn/index.ts", "export const load = () => import('lib');\nexport const other = 1;\n"),
            ("far/index.ts", "import { other } from 'dyn';\nconsole.log(other);\n"),
        ],
    );
    assert_eq!(
        ws.affected(&changes(vec![changed("lib/index.ts", &[1])])),
        vec!["dyn", "far", "lib", "ns"]
    );
    assert_eq!(
        ws.affected(&changes(vec![changed("lib/index.ts", &[2])])),
        vec!["dyn", "far", "lib"]
    );
}

#[test]
fn circular_imports_come_to_an_end() {
    let ws = workspace(
        vec![project("a", "a"), project("b", "b")],
        &[
            ("a/index.ts", "import { g } from 'b';\nexport function f() {\n  return g();\n}\n"),
            ("b/index.ts", "import { f } from 'a';\nexport function g() {\n  return f();\n}\n"),
        ],
    );
    assert_eq!(ws.affected(&changes(vec![changed("a/index.ts", &[3])])), vec!["a", "b"]);
}

#[test]
fn a_global_trigger_affects_all_projects() {
    let ws = two_projects();
    let mut change = changes(vec![changed("nx.json", &[1])]);
    change.global_triggers = vec![GlobalTrigger {
        file: "nx.json".to_string(),
        named_input: "sharedGlobals".to_string(),
        raw_pattern: "{workspaceRoot}/nx.json".to_string(),
    }];
    assert_eq!(ws.affected(&change), vec!["app", "lib"]);
    // A report tells those that the analysis finds from the others.
    change.changed_files.push(changed("libs/lib/utils.ts", &[8]));
    change.total_changed_files = 2;
    let result = ws.report(&change);
    assert_eq!(result.affected_projects, vec!["app", "lib"]);
    let report = result.report.unwrap();
    assert_eq!(report.totals.globally_invalidated, 1);
    assert_eq!(report.totals.semantically_affected, 1);
    assert_eq!(report.totals.overlap, 1);
    assert_eq!(report.totals.changed_files, 2);
    assert_eq!(report.version, "1.2.3");
    assert_eq!(report.run_started_at_unix_secs, 77);
    assert_eq!(report.global_triggers.len(), 1);
    let invalidation = AffectCause::GlobalInvalidation {
        file: "nx.json".to_string(),
        named_input: "sharedGlobals".to_string(),
    };
    assert_eq!(report.projects.len(), 2);
    assert_eq!(report.projects[0].name, "app");
    assert_eq!(report.projects[0].causes, vec![invalidation.clone()]);
    assert_eq!(report.projects[1].name, "lib");
    assert_eq!(
        report.projects[1].causes,
        vec![
            AffectCause::DirectChange {
                file: "libs/lib/utils.ts".to_string(),
                symbol: Some("unused".to_string()),
                line: 8
            },
            AffectCause::ImportedSymbol {
                source_project: "lib".to_string(),
                symbol: "unused".to_string(),
                via_file: "libs/lib/index.ts".to_string(),
                source_file: "libs/lib/utils.ts".to_string(),
            },
            invalidation,
        ]
    );
}

#[test]
fn the_report_explains_each_project() {
    let mut ws = two_projects();
    let mut e2e = project("e2e", "e2e");
    e2e.implicit_dependencies = vec!["app".to_string()];
    ws.config.projects.push(e2e);
    let result = ws.report(&changes(vec![changed("libs/lib/utils.ts", &[3, 2])]));
    assert_eq!(result.affected_projects, vec!["app", "e2e", "lib"]);
    let report = result.report.unwrap();
    let names: Vec<&str> = report.projects.iter().map(|p| p.name.as_str()).collect();
    assert_eq!(names, vec!["app", "e2e", "lib"]);
    assert_eq!(
        report.projects[0].causes,
        vec![AffectCause::ImportedSymbol {
            source_project: "lib".to_string(),
            symbol: "used".to_string(),
            via_file: "apps/app/main.ts".to_string(),
            source_file: "libs/lib/index.ts".to_string(),
        }]
    );
    assert_eq!(
        report.projects[1].causes,
        vec![AffectCause::ImplicitDependency { depends_on: "app".to_string() }]
    );
    // Direct changes first, by line; then what comes by import.
    assert_eq!(
        report.projects[2].causes,
        vec![
            AffectCause::DirectChange {
                file: "libs/lib/utils.ts".to_string(),
                symbol: Some("used".to_string()),
                line: 2
            },
            AffectCause::DirectChange {
                file: "libs/lib/utils.ts".to_string(),
                symbol: Some("used".to_string()),
                line: 3
            },
            AffectCause::ImportedSymbol {
                source_project: "lib".to_string(),
                symbol: "used".to_string(),
                via_file: "libs/lib/index.ts".to_string(),
                source_file: "libs/lib/utils.ts".to_string(),
            },
        ]
    );
    assert_eq!(report.totals.globally_invalidated, 0);
    assert_eq!(report.totals.semantically_affected, 3);
    assert_eq!(report.totals.overlap, 0);
}

#[test]
fn assets_are_followed_through_their_imports() {
    let mut ws = workspace(
        vec![project("assets", "assets"), project("lib", "lib"), project("app", "app")],
        &[
            (
                "lib/index.ts",
                "import icon from '../assets/icon.json';\nexport const Icon = () => icon;\n",
            ),
            ("app/index.ts", "import { Icon } from 'lib';\nexport const App = Icon();\n"),
        ],
    );
    ws.asset_references.push((
        "assets/icon.json",
        AssetReference {
            source_file: "lib/index.ts".to_string(),
            line: 1,
            column: 18,
            matched_path: "../assets/icon.json".to_string(),
        },
    ));
    let change = changes(vec![changed("assets/icon.json", &[4])]);
    assert_eq!(ws.affected(&change), vec!["app", "assets", "lib"]);
    let report = ws.report(&change).report.unwrap();
    assert_eq!(
        report.projects[1].causes,
        vec![AffectCause::DirectChange {
            file: "assets/icon.json".to_string(),
            symbol: None,
            line: 4
        }]
    );
    assert_eq!(
        report.projects[2].causes,
        vec![AffectCause::AssetChange {
            asset_file: "assets/icon.json".to_string(),
            referenced_in: "lib/index.ts".to_string(),
            line: 1
        }]
    );
    // An asset that nothing refers to affects its owner alone.
    assert_eq!(ws.affected(&changes(vec![changed("assets/other.css", &[1])])), vec!["assets"]);
    assert!(ws.affected(&changes(vec![changed("README.md", &[1])])).is_empty());
}

fn lockfile_workspace(strategy: LockfileStrategy) -> Workspace {
    let mut ws = workspace(
        vec![project("lib", "lib"), project("app", "app"), project("other", "other")],
        &[
            ("lib/index.ts", "import pad from 'left-pad';\nexport const padded = pad('x');\n"),
            ("app/index.ts", "import { padded } from 'lib';\nexport const y = padded;\n"),
            ("other/index.ts", "import x from 'unrelated';\nexport const z = x;\n"),
        ],
    );
    ws.config.lockfile_strategy = strategy;
    ws.dependencies = Some(vec![ModuleMatch {
        from_module: "left-pad".to_string(),
        dependency: "left-pad".to_string(),
    }]);
    ws
}

fn lockfile_change() -> Changes {
    let mut change = changes(vec![changed("package-lock.json", &[10])]);
    change.lockfile_name = Some("package-lock.json".to_string());
    change.lockfile_changed = true;
    change
}

#[test]
fn the_lockfile_counts_as_the_strategy_says() {
    let change = lockfile_change();
    assert!(lockfile_workspace(LockfileStrategy::Off).affected(&change).is_empty());
    assert_eq!(lockfile_workspace(LockfileStrategy::Direct).affected(&change), vec!["lib"]);
    assert_eq!(lockfile_workspace(LockfileStrategy::Full).affected(&change), vec!["app", "lib"]);
    let report = lockfile_workspace(LockfileStrategy::Direct).report(&change).report.unwrap();
    assert_eq!(
        report.projects[0].causes,
        vec![AffectCause::LockfileChange {
            dependency: "left-pad".to_string(),
            importing_file: "lib/index.ts".to_string()
        }]
    );
}

#[test]
fn an_unreadable_lockfile_affects_nothing() {
    let mut ws = lockfile_workspace(LockfileStrategy::Full);
    ws.dependencies = None;
    assert!(ws.affected(&lockfile_change()).is_empty());
    ws.dependencies = Some(vec![]);
    assert!(ws.affected(&lockfile_change()).is_empty());
}

#[test]
fn a_failed_search_gives_up_one_symbol() {
    let ws = two_projects();
    let number = ws.analyzer.number_of_file("libs/lib/utils.ts").unwrap();
    let mut state = AffectedState::new(false);
    state.begin(&vec![(number, "used".to_string()), (number, "unused".to_string())]);
    let mut asked = vec![];
    loop {
        match state.process_changed_symbol(&ws.analyzer, &ws.index) {
            Need::Nothing => {}
            Need::References { file_path, symbol } => {
                assert_eq!(file_path, "libs/lib/utils.ts");
                asked.push(symbol);
                state.answer(&ws.analyzer, None);
            }
            Need::Done => break,
        }
    }
    assert_eq!(asked, vec!["used", "unused"]);
    assert!(state.is_done());
    assert!(state.affected_names().is_empty());
}

#[test]
fn a_symbol_is_traced_once() {
    let ws = two_projects();
    let number = ws.analyzer.number_of_file("libs/lib/utils.ts").unwrap();
    let mut state = AffectedState::new(false);
    state.begin(&vec![(number, "used".to_string()), (number, "used".to_string())]);
    let mut asked: Vec<(String, String)> = vec![];
    loop {
        match state.process_changed_symbol(&ws.analyzer, &ws.index) {
            Need::Nothing => {}
            Need::References { file_path, symbol } => {
                let found = ws.cross_references(&file_path, &symbol);
                asked.push((file_path, symbol));
                state.answer(&ws.analyzer, Some(found));
            }
            Need::Done => break,
        }
    }
    let count = asked.len();
    asked.sort();
    asked.dedup();
    assert_eq!(asked.len(), count);
    assert_eq!(state.affected_names(), vec!["app", "lib"]);
}

#[test]
fn imports_are_indexed_by_what_they_resolve_to() {
    let ws = two_projects();
    let importers = ws.analyzer.import_index().importers_of("libs/lib/utils.ts", "used").unwrap();
    assert_eq!(importers.len(), 1);
    assert_eq!(importers[0].importing_file, "libs/lib/index.ts");
    assert_eq!(importers[0].local_name, "used");
    assert_eq!(importers[0].from_module, "./utils");
    assert!(!importers[0].is_dynamic);
    // Paths are compared by their components.
    assert!(ws.analyzer.import_index().importers_of("libs//lib/utils.ts", "unused").is_some());
    assert!(ws.analyzer.import_index().importers_of("libs/lib/utils.ts", "inner").is_none());
}

#[test]
fn resolutions_count_below_the_working_directory() {
    let found = |path: &str| resolved_file("/ws", &Resolution::Found(path.to_string()));
    assert_eq!(found("/ws/lib/a.ts"), Some("lib/a.ts".to_string()));
    assert_eq!(found("/elsewhere/a.ts"), None);
    assert_eq!(found("/wsx/a.ts"), None);
    let fallback = Resolution::Fallback(Some("lib/b.ts".to_string()));
    assert_eq!(resolved_file("/ws", &fallback), Some("lib/b.ts".to_string()));
    assert_eq!(resolved_file("/ws", &Resolution::Fallback(None)), None);
}

#[test]
fn external_imports_are_not_asked_for() {
    let ws = workspace(
        vec![project("lib", "lib")],
        &[("lib/index.ts", "import a from 'react';\nimport b from './b';\nimport c from 'lib/deep';\n")],
    );
    let requests = ws.analyzer.import_requests("/ws");
    let seen: Vec<(usize, usize, &str, &str)> = requests
        .iter()
        .map(|r| (r.file, r.import, r.context.as_str(), r.specifier.as_str()))
        .collect();
    assert_eq!(seen, vec![(0, 1, "/ws/lib", "./b"), (0, 2, "/ws/lib", "lib/deep")]);
}

#[test]
fn names_come_in_the_order_of_projects() {
    let projects = vec![project("b", "b"), project("a", "a")];
    assert_eq!(list_project_names(&projects), vec!["b", "a"]);
}

#[test]
fn a_report_changes_nothing_and_explains_all() {
    let ws = two_projects();
    for line in 1..=9 {
        let change = changes(vec![changed("libs/lib/utils.ts", &[line])]);
        let result = ws.report(&change);
        assert_eq!(result.affected_projects, ws.affected(&change));
        let report = result.report.unwrap();
        let explained: Vec<String> = report.projects.iter().map(|p| p.name.clone()).collect();
        assert_eq!(explained, result.affected_projects);
        assert!(report.projects.iter().all(|p| !p.causes.is_empty()));
    }
}

#[test]
fn an_analyzed_file_without_changed_lines_is_a_direct_change() {
    let ws = two_projects();
    let result = ws.report(&changes(vec![changed("libs/lib/utils.ts", &[])]));
    assert_eq!(result.affected_projects, vec!["lib"]);
    let report = result.report.unwrap();
    assert_eq!(report.projects.len(), 1);
    assert_eq!(report.projects[0].name, "lib");
    assert_eq!(
        report.projects[0].causes,
        vec![AffectCause::DirectChange {
            file: "libs/lib/utils.ts".to_string(),
            symbol: None,
            line: 0
        }]
    );
}

#[test]
fn a_symbol_of_a_file_without_owner_explains_its_importers() {
    let ws = workspace(
        vec![project("app", "app")],
        &[
            ("shared/util.ts", "export const util = 1;\n"),
            ("app/index.ts", "import { util } from '../shared/util';\nexport const main = util;\n"),
        ],
    );
    let result = ws.report(&changes(vec![changed("shared/util.ts", &[1])]));
    assert_eq!(result.affected_projects, vec!["app"]);
    let report = result.report.unwrap();
    assert_eq!(report.projects.len(), 1);
    assert_eq!(report.projects[0].name, "app");
    assert_eq!(
        report.projects[0].causes,
        vec![AffectCause::ImportedSymbol {
            source_project: String::new(),
            symbol: "util".to_string(),
            via_file: "app/index.ts".to_string(),
            source_file: "shared/util.ts".to_string(),
        }]
    );
}

#[test]
fn affected_names_are_those_of_projects_with_a_trigger_or_without() {
    let ws = two_projects();
    let names = list_project_names(&ws.config.projects);
    let mut change = changes(vec![changed("libs/lib/utils.ts", &[2]), changed("nx.json", &[1])]);
    assert!(ws.affected(&change).iter().all(|name| names.contains(name)));
    change.global_triggers = vec![GlobalTrigger {
        file: "nx.json".to_string(),
        named_input: "sharedGlobals".to_string(),
        raw_pattern: "{workspaceRoot}/nx.json".to_string(),
    }];
    // With a trigger a report changes nothing either.
    assert_eq!(ws.affected(&change), vec!["app", "lib"]);
    assert_eq!(ws.report(&change).affected_projects, ws.affected(&change));
}

#[test]
fn a_stronger_lockfile_strategy_adds_projects() {
    let strategies = [LockfileStrategy::Off, LockfileStrategy::Direct, LockfileStrategy::Full];
    let mut change = lockfile_change();
    change.changed_files.push(changed("other/index.ts", &[2]));
    let found: Vec<Vec<String>> =
        strategies.map(|strategy| lockfile_workspace(strategy).affected(&change)).to_vec();
    assert_eq!(found[0], vec!["other"]);
    assert_eq!(found[1], vec!["lib", "other"]);
    assert_eq!(found[2], vec!["app", "lib", "other"]);
    // Where the lockfile did not change, the strategy does not matter.
    change.lockfile_changed = false;
    for strategy in strategies {
        assert_eq!(lockfile_workspace(strategy).affected(&change), vec!["other"]);
    }
}

#[test]
fn a_trace_ends_at_what_the_roots_lead_to() {
    // `a` is used by `b`, `b` by `c`; nothing uses `d`.
    let ws = workspace(
        vec![project("p", "p"), project("q", "q")],
        &[
            (
                "p/index.ts",
                "const a = 1;\nconst b = a;\nexport const c = b;\nexport const d = 2;\n",
            ),
            ("q/index.ts", "import { c } from 'p';\nimport { d } from 'p';\nexport const e = c;\nexport const f = d;\n"),
        ],
    );
    let mut state = AffectedState::new(false);
    state.begin(&vec![(0, "a".to_string())]);
    let mut asked = vec![];
    loop {
        match state.process_changed_symbol(&ws.analyzer, &ws.index) {
            Need::Nothing => {}
            Need::References { file_path, symbol } => {
                let found = ws.cross_references(&file_path, &symbol);
                asked.push(symbol);
                state.answer(&ws.analyzer, Some(found));
            }
            Need::Done => break,
        }
    }
    asked.sort();
    assert_eq!(asked, vec!["a", "b", "c", "e"]);
    assert_eq!(state.affected_names(), vec!["q"]);
}
