use domino::affected::ModuleMatch;
use domino::outcome::RunInfo;
use domino::semantic::analyzer::{parse_single_file, WorkspaceAnalyzer};
use domino::semantic::import_index::Resolution;
use domino::types::{
    AffectCause, AffectedResult, ChangedFile, GlobalTrigger, LockfileStrategy, Project, Reference,
    TrueAffectedConfig,
};
use domino::utils::{is_source_file, ProjectIndex, TsconfigExcludes};
use domino::{find_affected, find_affected_with_report, Action, Changes, Start};

const CWD: &str = "/workspace";

fn project(name: &str, root: &str, source_root: &str) -> Project {
    Project {
        name: name.to_string(),
        root: root.to_string(),
        source_root: source_root.to_string(),
        ts_config: None,
        implicit_dependencies: vec![],
        targets: vec![],
    }
}

/// A path without `.` and `..`.
fn plain(path: &str) -> String {
    let mut parts: Vec<&str> = vec![];
    for part in path.split('/') {
        match part {
            "." => {}
            ".." => {
                parts.pop();
            }
            _ => parts.push(part),
        }
    }
    parts.join("/")
}

/// A workspace with a change.
struct Repo {
    projects: Vec<Project>,
    files: Vec<(String, String)>,
    changed: Vec<ChangedFile>,
    /// The files that each project's tsconfig leaves out.
    excluded: Vec<String>,
    triggers: Vec<GlobalTrigger>,
    lockfile_strategy: LockfileStrategy,
    /// The changed dependencies.
    dependencies: Vec<String>,
}

impl Repo {
    fn new(projects: Vec<Project>, files: &[(&str, &str)]) -> Self {
        Repo {
            projects,
            files: files.iter().map(|(p, c)| (p.to_string(), c.to_string())).collect(),
            changed: vec![],
            excluded: vec![],
            triggers: vec![],
            lockfile_strategy: LockfileStrategy::Off,
            dependencies: vec![],
        }
    }

    /// Changes a file; the lines that stand elsewhere or are new count as changed.
    fn change(&mut self, file: &str, content: &str) {
        let before = self.files.iter().find(|(path, _)| path == file).map(|(_, c)| c.clone());
        let before = before.unwrap_or_default();
        let old: Vec<&str> = before.lines().collect();
        let mut changed_lines = vec![];
        for (number, line) in content.lines().enumerate() {
            if old.get(number) != Some(&line) {
                changed_lines.push(number + 1);
            }
        }
        self.files.retain(|(path, _)| path != file);
        self.files.push((file.to_string(), content.to_string()));
        self.changed.push(ChangedFile { file_path: file.to_string(), changed_lines });
    }

    /// The file that a specifier leads to.
    fn resolve(&self, context: &str, specifier: &str) -> Option<String> {
        if !specifier.starts_with('.') {
            return None;
        }
        let path = plain(&format!("{}/{}", context, specifier));
        [".ts", ".tsx", "/index.ts"]
            .iter()
            .map(|end| format!("{}{}", path, end))
            .find(|candidate| self.files.iter().any(|(known, _)| known == candidate))
    }

    /// The uses of a symbol where it is imported, and where it is exported again.
    fn cross_references(
        &self,
        analyzer: &WorkspaceAnalyzer,
        file_path: &str,
        symbol: &str,
    ) -> Vec<Reference> {
        let mut found = vec![];
        for importer in analyzer.import_index().importers_of(file_path, symbol).into_iter().flatten()
        {
            found.extend(
                analyzer
                    .find_local_references(&importer.importing_file, &importer.local_name)
                    .unwrap(),
            );
        }
        for number in 0..analyzer.file_count() {
            let file = analyzer.file(number);
            let context = file.relative_path.rsplit_once('/').unwrap().0;
            for export in &file.exports {
                let from = export.re_export_from.as_deref();
                if export.local_name.as_deref() == Some(symbol)
                    && from.and_then(|from| self.resolve(context, from)).as_deref() == Some(file_path)
                {
                    let path = file.relative_path.clone();
                    found.extend(self.cross_references(analyzer, &path, &export.exported_name));
                }
            }
        }
        found
    }

    fn analyzer(&self) -> WorkspaceAnalyzer {
        let is_walked = |path: &str| {
            is_source_file(path)
                && self.projects.iter().any(|p| path.starts_with(&format!("{}/", p.source_root)))
        };
        let files = self
            .files
            .iter()
            .filter(|(path, _)| is_walked(path))
            .map(|(path, content)| parse_single_file(content.clone(), path, path.clone()))
            .collect();
        let analyzer =
            WorkspaceAnalyzer::new(self.projects.clone(), vec![], false).analyze_workspace(files);
        let resolutions = analyzer
            .import_requests(CWD)
            .iter()
            .map(|request| {
                let context = request.context.strip_prefix("/workspace/").unwrap();
                match self.resolve(context, &request.specifier) {
                    Some(path) => Resolution::Found(format!("{}/{}", CWD, path)),
                    None => Resolution::Fallback(None),
                }
            })
            .collect();
        analyzer.build_import_index(CWD, &resolutions)
    }

    fn find(&self, report: bool) -> AffectedResult {
        let analyzer = self.analyzer();
        let excludes = self
            .projects
            .iter()
            .map(|p| p.ts_config.as_ref().map(|_| TsconfigExcludes::new(&self.excluded)))
            .collect();
        let index = ProjectIndex::new(&self.projects, CWD, excludes);
        let config = TrueAffectedConfig {
            cwd: CWD.to_string(),
            base: "main".to_string(),
            head: None,
            root_ts_config: None,
            projects: self.projects.clone(),
            include_patterns: vec![],
            ignored_paths: vec![],
            lockfile_strategy: self.lockfile_strategy,
            resolve_package_exports: false,
        };
        let lockfile = "package-lock.json";
        let changes = Changes {
            total_changed_files: self.changed.len(),
            lockfile_changed: self.changed.iter().any(|f| f.file_path == lockfile),
            changed_files: self.changed.clone(),
            global_triggers: self.triggers.clone(),
            lockfile_name: Some(lockfile.to_string()),
        };
        let start = if report {
            find_affected_with_report(&config, &changes)
        } else {
            find_affected(&config, &changes)
        };
        let mut analysis = match start {
            Start::Known(result) => return result,
            Start::Analyze(analysis) => analysis,
        };
        loop {
            match analysis.step(&analyzer, &index) {
                Action::Continue => {}
                Action::References { file_path, symbol } => {
                    let found = self.cross_references(&analyzer, &file_path, &symbol);
                    analysis.references(&analyzer, Some(found));
                }
                Action::AssetReferences { .. } => analysis.asset_references(Some(vec![])),
                Action::Dependencies => {
                    let matches = self
                        .dependencies
                        .iter()
                        .map(|name| ModuleMatch {
                            from_module: name.clone(),
                            dependency: name.clone(),
                        })
                        .collect();
                    analysis.dependencies(&analyzer, &index, Some(matches));
                }
                Action::Finish => break,
            }
        }
        let run = RunInfo {
            changed_files: changes.total_changed_files,
            version: "0.0.0",
            started_at_unix_secs: 0,
        };
        analysis.finish(&config, changes.global_triggers.clone(), run)
    }

    fn get_affected(&self) -> Vec<String> {
        self.find(false).affected_projects
    }
}

#[test]
fn test_shared_source_root_all_projects_affected() {
    let shared = "projects/app-desktop/src";
    let mut repo = Repo::new(
        vec![project("app-desktop", shared, shared), project("app-desktop-mv3", shared, shared)],
        &[(
            "projects/app-desktop/src/main.ts",
            "export function bootstrap() {\n  return 'hello';\n}\n",
        )],
    );
    repo.change(
        "projects/app-desktop/src/main.ts",
        "export function bootstrap() {\n  return 'modified';\n}\n",
    );
    let affected = repo.get_affected();

    assert!(
        affected.contains(&"app-desktop".to_string()),
        "app-desktop should be affected (file was changed). Got: {:?}",
        affected
    );
    assert!(
        affected.contains(&"app-desktop-mv3".to_string()),
        "app-desktop-mv3 should be affected (shares sourceRoot with app-desktop). Got: {:?}",
        affected
    );
}

/// `proj-a` imports an outside package, `proj-b` imports `proj-a`, `proj-c` neither.
fn setup_lockfile_test_repo(strategy: LockfileStrategy) -> Repo {
    let mut repo = Repo::new(
        vec![
            project("proj-a", "proj-a", "proj-a"),
            project("proj-b", "proj-b", "proj-b"),
            project("proj-c", "proj-c", "proj-c"),
        ],
        &[
            (
                "proj-a/src/index.ts",
                r#"import { helper } from 'lib-a';

export function useHelper() {
  return helper();
}
"#,
            ),
            (
                "proj-b/src/index.ts",
                r#"import { useHelper } from '../../proj-a/src/index';

export function main() {
  return useHelper();
}
"#,
            ),
            (
                "proj-c/src/index.ts",
                r#"export function standalone() {
  return 'no deps';
}
"#,
            ),
            ("package.json", r#"{"dependencies": {"lib-a": "^1.0.0"}}"#),
            ("package-lock.json", &lockfile("1.0.0", "1.0.0")),
        ],
    );
    repo.lockfile_strategy = strategy;
    repo.dependencies = vec!["lib-a".to_string()];
    repo
}

fn lockfile(lib_a: &str, lib_nested: &str) -> String {
    format!(
        r#"{{
  "lockfileVersion": 3,
  "packages": {{
    "": {{
      "dependencies": {{ "lib-a": "^1.0.0" }}
    }},
    "node_modules/lib-a": {{
      "version": "{}",
      "dependencies": {{ "lib-nested": "^1.0.0" }}
    }},
    "node_modules/lib-nested": {{
      "version": "{}"
    }}
  }}
}}"#,
        lib_a, lib_nested
    )
}

#[test]
fn test_lockfile_direct_strategy_detects_importing_project() {
    let mut repo = setup_lockfile_test_repo(LockfileStrategy::Direct);
    repo.change("package-lock.json", &lockfile("2.0.0", "1.0.0"));
    let affected = repo.get_affected();

    assert!(
        affected.contains(&"proj-a".to_string()),
        "proj-a should be affected (imports lib-a). Got: {:?}",
        affected
    );
    assert!(
        !affected.contains(&"proj-c".to_string()),
        "proj-c should NOT be affected (no lib-a dependency). Got: {:?}",
        affected
    );
}

#[test]
fn test_lockfile_full_strategy_traces_reference_chain() {
    let mut repo = setup_lockfile_test_repo(LockfileStrategy::Full);
    repo.change("package-lock.json", &lockfile("2.0.0", "1.0.0"));
    let affected = repo.get_affected();

    assert!(
        affected.contains(&"proj-a".to_string()),
        "proj-a should be affected (imports lib-a). Got: {:?}",
        affected
    );
    assert!(
        affected.contains(&"proj-b".to_string()),
        "proj-b should be affected (imports from proj-a which uses lib-a). Got: {:?}",
        affected
    );
    assert!(
        !affected.contains(&"proj-c".to_string()),
        "proj-c should NOT be affected. Got: {:?}",
        affected
    );
}

#[test]
fn test_lockfile_none_strategy_ignores_lockfile_changes() {
    let mut repo = setup_lockfile_test_repo(LockfileStrategy::Off);
    repo.change("package-lock.json", &lockfile("2.0.0", "1.0.0"));
    let affected = repo.get_affected();

    assert!(
        affected.is_empty(),
        "No projects should be affected without a lockfile strategy. Got: {:?}",
        affected
    );
}

#[test]
fn test_lockfile_transitive_dep_change_resolves_to_direct() {
    let mut repo = setup_lockfile_test_repo(LockfileStrategy::Direct);
    // Only the nested dependency is bumped; `lib-a` is what depends on it.
    repo.change("package-lock.json", &lockfile("1.0.0", "2.0.0"));
    let affected = repo.get_affected();

    assert!(
        affected.contains(&"proj-a".to_string()),
        "proj-a should be affected (transitive dep lib-nested changed -> resolves to lib-a). Got: {:?}",
        affected
    );
}

#[test]
fn test_lockfile_no_change_zero_impact() {
    let mut repo = setup_lockfile_test_repo(LockfileStrategy::Direct);
    // Only change a source file, not the lockfile
    repo.change(
        "proj-c/src/index.ts",
        "export function standalone() {\n  return 'modified';\n}\n",
    );
    let affected = repo.get_affected();

    assert!(
        affected.contains(&"proj-c".to_string()),
        "proj-c should be affected (source changed). Got: {:?}",
        affected
    );
    assert_eq!(affected.len(), 1, "Only proj-c should be affected. Got: {:?}", affected);
}

const STORIES: &str = r#"import type { SharedType } from '../../shared-types/src';

export const mockData: SharedType = { name: 'test' };
"#;

/// Widgets whose stories, which their tsconfig leaves out, use a shared type.
fn setup_widgets(grid: &str) -> Repo {
    let mut widgets = project("ui-widgets", "ui-widgets/src", "ui-widgets/src");
    widgets.ts_config = Some("ui-widgets/tsconfig.lib.json".to_string());
    let mut repo = Repo::new(
        vec![project("shared-types", "shared-types/src", "shared-types/src"), widgets],
        &[
            ("shared-types/src/types.ts", "export interface SharedType {\n  name: string;\n}\n"),
            ("shared-types/src/index.ts", "export { SharedType } from './types';\n"),
            ("ui-widgets/src/Grid.tsx", grid),
            ("ui-widgets/src/Grid.stories.tsx", STORIES),
        ],
    );
    repo.excluded = vec!["ui-widgets/src/Grid.stories.tsx".to_string()];
    repo.change(
        "shared-types/src/types.ts",
        "export interface SharedType {\n  name: string;\n  description?: string;\n}\n",
    );
    repo
}

#[test]
fn test_tsconfig_exclude_prevents_false_positive_via_stories() {
    let repo = setup_widgets("export function Grid() {\n  return null;\n}\n");
    let affected = repo.get_affected();

    assert!(
        affected.contains(&"shared-types".to_string()),
        "shared-types should be affected (directly changed). Got: {:?}",
        affected
    );
    assert!(
        !affected.contains(&"ui-widgets".to_string()),
        "ui-widgets should NOT be affected (only link is via excluded stories file). Got: {:?}",
        affected
    );
}

#[test]
fn test_tsconfig_exclude_does_not_suppress_real_dependencies() {
    let repo = setup_widgets(
        r#"import type { SharedType } from '../../shared-types/src';

export function Grid(props: SharedType) {
  return null;
}
"#,
    );
    let affected = repo.get_affected();

    assert!(
        affected.contains(&"shared-types".to_string()),
        "shared-types should be affected. Got: {:?}",
        affected
    );
    assert!(
        affected.contains(&"ui-widgets".to_string()),
        "ui-widgets SHOULD be affected (Grid.tsx imports SharedType and is not excluded). Got: {:?}",
        affected
    );
}

/// Two libraries, one with a source root of its own.
fn nx_repo() -> Repo {
    Repo::new(
        vec![
            project("lib-a", "libs/lib-a", "libs/lib-a/src"),
            project("lib-b", "libs/lib-b", "libs/lib-b"),
        ],
        &[
            ("libs/lib-a/src/index.ts", "export const a = 1;\n"),
            ("libs/lib-b/src/index.ts", "export const b = 2;\n"),
            ("babel.config.json", "{}"),
        ],
    )
}

fn shared_globals(file: &str) -> GlobalTrigger {
    GlobalTrigger {
        file: file.to_string(),
        named_input: "sharedGlobals".to_string(),
        raw_pattern: format!("{{workspaceRoot}}/{}", file),
    }
}

#[test]
fn test_named_inputs_global_invalidation() {
    let mut repo = nx_repo();
    // Change babel.config.json (a global input)
    repo.change("babel.config.json", r#"{"presets": ["@babel/preset-env"]}"#);
    repo.triggers = vec![shared_globals("babel.config.json")];
    let affected = repo.get_affected();

    // ALL projects should be affected
    assert!(
        affected.contains(&"lib-a".to_string()),
        "lib-a should be affected by global invalidation. Got: {:?}",
        affected
    );
    assert!(
        affected.contains(&"lib-b".to_string()),
        "lib-b should be affected by global invalidation. Got: {:?}",
        affected
    );
}

#[test]
fn test_named_inputs_negation_does_not_affect_normal_files() {
    let mut repo = nx_repo();
    repo.change("libs/lib-a/src/index.ts", "export const a = 42;\n");
    let affected = repo.get_affected();

    // lib-a SHOULD be affected (normal .ts file changed)
    assert!(
        affected.contains(&"lib-a".to_string()),
        "lib-a should be affected (normal .ts file changed). Got: {:?}",
        affected
    );
}

#[test]
fn test_named_inputs_no_config_fallback() {
    let mut repo = nx_repo();
    repo.change("libs/lib-a/src/index.ts", "export const a = 99;\n");
    let affected = repo.get_affected();

    // Only lib-a should be affected (normal behavior)
    assert!(
        affected.contains(&"lib-a".to_string()),
        "lib-a should be affected. Got: {:?}",
        affected
    );
    assert!(
        !affected.contains(&"lib-b".to_string()),
        "lib-b should NOT be affected (no cross-file reference). Got: {:?}",
        affected
    );
}

#[test]
fn test_global_invalidation_html_report_contains_banner_and_metadata() {
    let mut repo = nx_repo();
    repo.change("babel.config.json", r#"{"presets": []}"#);
    repo.triggers = vec![shared_globals("babel.config.json")];
    let report = repo.find(true).report.expect("expected a report when --report is on");

    // The data of the banner and of the metadata.
    assert_eq!(report.global_triggers.len(), 1);
    assert_eq!(report.global_triggers[0].file, "babel.config.json");
    assert_eq!(report.global_triggers[0].named_input, "sharedGlobals");
    assert_eq!(report.totals.globally_invalidated, 2);
    assert_eq!(report.totals.changed_files, 1);
    // The cause of each project is the invalidation, not a direct change.
    let names: Vec<&str> = report.projects.iter().map(|p| p.name.as_str()).collect();
    assert_eq!(names, vec!["lib-a", "lib-b"]);
    for info in &report.projects {
        assert_eq!(
            info.causes,
            vec![AffectCause::GlobalInvalidation {
                file: "babel.config.json".to_string(),
                named_input: "sharedGlobals".to_string(),
            }]
        );
    }
}

#[test]
fn test_non_global_run_does_not_emit_new_global_markers() {
    let mut repo = nx_repo();
    repo.change("libs/lib-a/src/index.ts", "export const a = 99;\n");
    let report = repo.find(true).report.expect("expected a report when --report is on");

    assert!(report.global_triggers.is_empty());
    assert_eq!(report.totals.globally_invalidated, 0);
    assert_eq!(report.totals.overlap, 0);
    assert!(report
        .projects
        .iter()
        .flat_map(|p| &p.causes)
        .all(|cause| !matches!(cause, AffectCause::GlobalInvalidation { .. })));
}

#[test]
fn test_source_file_outside_sourceroot_affects_owning_project() {
    let mut repo = nx_repo();
    repo.change(
        "libs/lib-a/jest.config.js",
        "module.exports = { workerIdleMemoryLimit: '2048MB' };\n",
    );
    let mut affected = repo.get_affected();
    affected.sort();

    assert_eq!(
        affected,
        vec!["lib-a".to_string()],
        "Only lib-a should be affected by its own jest.config.js"
    );
}

#[test]
fn test_workspace_root_project_not_over_attributed() {
    let mut repo = Repo::new(
        vec![project("workspace", "", "src"), project("lib-a", "libs/lib-a", "libs/lib-a/src")],
        &[
            ("src/main.ts", "export const a = 1;\n"),
            ("libs/lib-a/src/index.ts", "export const b = 2;\n"),
        ],
    );
    // A config file inside lib-a's root but outside lib-a's sourceRoot.
    repo.change("libs/lib-a/jest.config.js", "module.exports = {};\n");
    let mut affected = repo.get_affected();
    affected.sort();

    assert_eq!(
        affected,
        vec!["lib-a".to_string()],
        "Only lib-a should be affected — workspace-root project must not match via root fallback"
    );
}

#[test]
fn test_spec_file_change_affects_owning_project() {
    let mut lib = project("lib-a", "libs/lib-a", "libs/lib-a/src");
    lib.ts_config = Some("libs/lib-a/tsconfig.lib.json".to_string());
    let mut repo = Repo::new(
        vec![lib],
        &[
            ("libs/lib-a/src/index.ts", "export const a = 1;\n"),
            ("libs/lib-a/src/utils.spec.ts", "import { a } from './index';\n"),
        ],
    );
    repo.excluded = vec!["libs/lib-a/src/utils.spec.ts".to_string()];
    repo.change("libs/lib-a/src/utils.spec.ts", "import { a } from './index';\n// changed\n");
    let affected = repo.get_affected();

    assert_eq!(
        affected,
        vec!["lib-a".to_string()],
        "lib-a should be affected even though the changed spec file is tsconfig-excluded"
    );
}

#[test]
fn a_file_left_out_explains_its_importers_by_its_owner() {
    let mut lib = project("lib", "lib", "lib");
    lib.ts_config = Some("lib/tsconfig.lib.json".to_string());
    let mut repo = Repo::new(
        vec![lib, project("app", "app", "app")],
        &[
            ("lib/mock.spec.ts", "export const mock = 1;\n"),
            ("lib/index.ts", "export const real = 1;\n"),
            (
                "app/index.ts",
                "import { mock } from '../lib/mock.spec';\nexport const main = mock;\n",
            ),
        ],
    );
    repo.excluded = vec!["lib/mock.spec.ts".to_string()];
    repo.change("lib/mock.spec.ts", "export const mock = 2;\n");
    let result = repo.find(true);
    assert_eq!(result.affected_projects, vec!["app", "lib"]);
    let report = result.report.unwrap();
    assert_eq!(
        report.projects[0].causes,
        vec![AffectCause::ImportedSymbol {
            source_project: "lib".to_string(),
            symbol: "mock".to_string(),
            via_file: "app/index.ts".to_string(),
            source_file: "lib/mock.spec.ts".to_string(),
        }]
    );
    // A project with a cause of its own gets no other for such a file.
    let import = "import { mock } from '../lib/mock.spec';\n";
    repo.change("app/index.ts", &format!("{}export const main = 3;\n", import));
    let other = format!("{}export const other = mock;\n", import);
    repo.files.push(("app/other.ts".to_string(), other));
    let report = repo.find(true).report.unwrap();
    assert_eq!(report.projects[0].name, "app");
    assert_eq!(
        report.projects[0].causes,
        vec![AffectCause::DirectChange {
            file: "app/index.ts".to_string(),
            symbol: Some("main".to_string()),
            line: 2
        }]
    );
}
