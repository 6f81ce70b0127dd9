use domino::outcome::RunInfo;
use domino::semantic::analyzer::{parse_single_file, WorkspaceAnalyzer};
use domino::semantic::import_index::Resolution;
use domino::types::{
    AssetReference, ChangedFile, LockfileStrategy, Project, Reference, TrueAffectedConfig,
};
use domino::utils::{is_source_file, ProjectIndex};
use domino::{find_affected, Action, Changes, Start};

const CWD: &str = "/monorepo";

/// The files of the workspace before any change.
fn baseline() -> Vec<(String, String)> {
    let files = [
        (
            "proj1/index.ts",
            r#"export function proj1() {
  return 'proj1';
}

export function unusedFn() {
  return 'unusedFn';
}
"#,
        ),
        (
            "proj2/index.ts",
            r#"import { proj1 } from '@monorepo/proj1';

export { proj1 } from '@monorepo/proj1';

export function proj2() {
  proj1();
  return 'proj2';
}

export function anotherFn() {
  return 'anotherFn';
}

const Decorator = () => (target: typeof MyClass) => target;

@Decorator()
export class MyClass {
  constructor() {
    proj1();
  }
}
"#,
        ),
        (
            "proj3/index.ts",
            r#"import { anotherFn } from '@monorepo/proj2';

export function proj3() {
  anotherFn();
  return 'proj3';
}
"#,
        ),
    ];
    files.iter().map(|(path, content)| (path.to_string(), content.to_string())).collect()
}

fn project(name: &str, implicit_dependencies: &[&str]) -> Project {
    Project {
        name: name.to_string(),
        root: name.to_string(),
        source_root: name.to_string(),
        ts_config: Some(format!("{}/tsconfig.json", name)),
        implicit_dependencies: implicit_dependencies.iter().map(|d| d.to_string()).collect(),
        targets: vec![],
    }
}

/// The lines of a text that are new since an earlier text, counted from one.
fn new_lines(before: &str, after: &str) -> Vec<usize> {
    let a: Vec<&str> = before.lines().collect();
    let b: Vec<&str> = after.lines().collect();
    // The longest common subsequence of the lines from each pair of places on.
    let mut common = vec![vec![0usize; b.len() + 1]; a.len() + 1];
    for i in (0..a.len()).rev() {
        for j in (0..b.len()).rev() {
            common[i][j] = if a[i] == b[j] {
                common[i + 1][j + 1] + 1
            } else {
                common[i + 1][j].max(common[i][j + 1])
            };
        }
    }
    let (mut i, mut j, mut found) = (0, 0, vec![]);
    while j < b.len() {
        if i < a.len() && a[i] == b[j] {
            i += 1;
            j += 1;
        } else if i < a.len() && common[i + 1][j] >= common[i][j + 1] {
            i += 1;
        } else {
            j += 1;
            found.push(j);
        }
    }
    found
}

/// A branch of the workspace.
struct TestBranch {
    files: Vec<(String, String)>,
}

impl TestBranch {
    fn new(_name: &str) -> Self {
        TestBranch { files: baseline() }
    }

    fn content(files: &[(String, String)], path: &str) -> Option<String> {
        files.iter().find(|(known, _)| known == path).map(|(_, content)| content.clone())
    }

    fn make_change(&mut self, file: &str, content: &str) {
        self.files.retain(|(path, _)| path != file);
        self.files.push((file.to_string(), content.to_string()));
    }

    fn changes(&self) -> Changes {
        let main = baseline();
        let mut changed_files = vec![];
        for (path, content) in &self.files {
            let before = Self::content(&main, path);
            if before.as_ref() != Some(content) {
                let changed_lines = new_lines(before.as_deref().unwrap_or(""), content);
                changed_files.push(ChangedFile { file_path: path.clone(), changed_lines });
            }
        }
        Changes {
            total_changed_files: changed_files.len(),
            changed_files,
            global_triggers: vec![],
            lockfile_name: None,
            lockfile_changed: false,
        }
    }

    /// The file that a specifier leads to.
    fn resolve(&self, context: &str, specifier: &str) -> Option<String> {
        let path = match specifier.strip_prefix("@monorepo/") {
            Some(rest) => rest.to_string(),
            None => format!("{}/{}", context, specifier.strip_prefix("./")?),
        };
        [format!("{}.ts", path), format!("{}/index.ts", path)]
            .into_iter()
            .find(|candidate| self.files.iter().any(|(known, _)| known == candidate))
    }

    /// The uses of a symbol where it is imported, and where it is exported again.
    fn cross_references(
        &self,
        analyzer: &WorkspaceAnalyzer,
        file_path: &str,
        symbol: &str,
    ) -> Vec<Reference> {
        let mut found = vec![];
        for importer in analyzer.import_index().importers_of(file_path, symbol).into_iter().flatten()
        {
            found.extend(
                analyzer
                    .find_local_references(&importer.importing_file, &importer.local_name)
                    .unwrap(),
            );
        }
        for number in 0..analyzer.file_count() {
            let file = analyzer.file(number);
            let context = file.relative_path.rsplit_once('/').unwrap().0;
            for export in &file.exports {
                let from = export.re_export_from.as_deref();
                if export.local_name.as_deref() == Some(symbol)
                    && from.and_then(|from| self.resolve(context, from)).as_deref() == Some(file_path)
                {
                    let path = file.relative_path.clone();
                    found.extend(self.cross_references(analyzer, &path, &export.exported_name));
                }
            }
        }
        found
    }

    /// The lines of source files that hold the name of an asset.
    fn asset_references(&self, asset_path: &str) -> Vec<AssetReference> {
        let name = asset_path.rsplit('/').next().unwrap();
        let mut found = vec![];
        for (path, content) in self.files.iter().filter(|(path, _)| is_source_file(path)) {
            for (number, line) in content.lines().enumerate() {
                if let Some(column) = line.find(name) {
                    found.push(AssetReference {
                        source_file: path.clone(),
                        line: number + 1,
                        column,
                        matched_path: name.to_string(),
                    });
                }
            }
        }
        found
    }

    fn get_affected(&self) -> Vec<String> {
        let projects =
            vec![project("proj1", &[]), project("proj2", &[]), project("proj3", &["proj1"])];
        let prefixes = ["@monorepo/proj1", "@monorepo/proj2", "@monorepo/proj3"];
        let files = self
            .files
            .iter()
            .filter(|(path, _)| is_source_file(path))
            .map(|(path, content)| parse_single_file(content.clone(), path, path.clone()))
            .collect();
        let prefixes = prefixes.iter().map(|prefix| prefix.to_string()).collect();
        let analyzer =
            WorkspaceAnalyzer::new(projects.clone(), prefixes, false).analyze_workspace(files);
        let resolutions = analyzer
            .import_requests(CWD)
            .iter()
            .map(|request| {
                let context = request.context.strip_prefix("/monorepo/").unwrap();
                match self.resolve(context, &request.specifier) {
                    Some(path) => Resolution::Found(format!("{}/{}", CWD, path)),
                    None => Resolution::Fallback(None),
                }
            })
            .collect();
        let analyzer = analyzer.build_import_index(CWD, &resolutions);
        let index = ProjectIndex::new(&projects, CWD, vec![None, None, None]);
        let config = TrueAffectedConfig {
            cwd: CWD.to_string(),
            base: "main".to_string(),
            head: None,
            root_ts_config: Some("tsconfig.json".to_string()),
            projects,
            include_patterns: vec![],
            ignored_paths: vec![],
            lockfile_strategy: LockfileStrategy::Off,
            resolve_package_exports: false,
        };
        let changes = self.changes();
        let mut analysis = match find_affected(&config, &changes) {
            Start::Known(result) => return result.affected_projects,
            Start::Analyze(analysis) => analysis,
        };
        loop {
            match analysis.step(&analyzer, &index) {
                Action::Continue => {}
                Action::References { file_path, symbol } => {
                    let found = self.cross_references(&analyzer, &file_path, &symbol);
                    analysis.references(&analyzer, Some(found));
                }
                Action::AssetReferences { asset_path } => {
                    analysis.asset_references(Some(self.asset_references(&asset_path)));
                }
                Action::Dependencies => analysis.dependencies(&analyzer, &index, None),
                Action::Finish => break,
            }
        }
        let run = RunInfo { changed_files: 0, version: "0.0.0", started_at_unix_secs: 0 };
        analysis.finish(&config, vec![], run).affected_projects
    }
}

#[test]
fn test_basic_cross_file_reference() {
    let mut branch = TestBranch::new("test-basic");

    // Change proj1 function that is used by proj2
    branch.make_change(
        "proj1/index.ts",
        r#"export function proj1() {
  return 'proj1-modified';
}

export function unusedFn() {
  return 'unusedFn';
}
"#,
    );

    let affected = branch.get_affected();

    // proj1 changed, proj2 imports proj1() via static import, proj3 has implicit dep on proj1
    assert!(affected.contains(&"proj1".to_string()));
    assert!(affected.contains(&"proj2".to_string()));
    assert!(affected.contains(&"proj3".to_string())); // implicit dependency
}

#[test]
fn test_unused_function_change() {
    let mut branch = TestBranch::new("test-unused");

    // Change unusedFn which is not used anywhere
    branch.make_change(
        "proj1/index.ts",
        r#"export function proj1() {
  return 'proj1';
}

export function unusedFn() {
  return 'unusedFn-modified';
}
"#,
    );

    let affected = branch.get_affected();

    // proj1 is affected (unusedFn changed), and proj3 has implicit dependency on proj1
    assert!(affected.contains(&"proj1".to_string()));
    assert!(affected.contains(&"proj3".to_string())); // implicit dependency
}

#[test]
fn test_implicit_dependencies() {
    let mut branch = TestBranch::new("test-implicit");

    // Change unusedFn in proj1
    branch.make_change(
        "proj1/index.ts",
        r#"export function proj1() {
  return 'proj1';
}

export function unusedFn() {
  return 'unusedFn-changed';
}
"#,
    );

    let affected = branch.get_affected();

    // proj1 changed, and proj3 has implicit dependency on proj1
    // So both proj1 and proj3 should be affected
    assert_eq!(affected, vec!["proj1", "proj3"]);
}

#[test]
fn test_re_export_chain() {
    let mut branch = TestBranch::new("test-reexport");

    // Change proj1 function that is re-exported by proj2
    branch.make_change(
        "proj1/index.ts",
        r#"export function proj1() {
  return 'proj1-reexport-test';
}

export function unusedFn() {
  return 'unusedFn';
}
"#,
    );

    let affected = branch.get_affected();

    // proj1 changed, proj2 re-exports it, and proj3 has implicit dependency on proj1
    assert!(affected.contains(&"proj1".to_string()));
    assert!(affected.contains(&"proj3".to_string())); // implicit dependency
}

#[test]
fn test_transitive_dependencies() {
    let mut branch = TestBranch::new("test-transitive");

    // Change anotherFn in proj2 which is used by proj3
    branch.make_change(
        "proj2/index.ts",
        r#"import { proj1 } from '@monorepo/proj1';

export { proj1 } from '@monorepo/proj1';

export function proj2() {
  proj1();
  return 'proj2';
}

export function anotherFn() {
  return 'anotherFn-modified';
}

const Decorator = () => (target: typeof MyClass) => target;

@Decorator()
export class MyClass {
  constructor() {
    proj1();
  }
}
"#,
    );

    let affected = branch.get_affected();

    // proj2 changed (anotherFn), and proj3 uses anotherFn, so both should be affected
    assert!(affected.contains(&"proj2".to_string()));
}

#[test]
fn test_multiple_changes() {
    let mut branch = TestBranch::new("test-multiple");

    // Change proj1
    branch.make_change(
        "proj1/index.ts",
        r#"export function proj1() {
  return 'proj1-change1';
}

export function unusedFn() {
  return 'unusedFn';
}
"#,
    );

    // Change proj2
    branch.make_change(
        "proj2/index.ts",
        r#"import { proj1 } from '@monorepo/proj1';

export { proj1 } from '@monorepo/proj1';

export function proj2() {
  proj1();
  return 'proj2-change2';
}

export function anotherFn() {
  return 'anotherFn-modified';
}

const Decorator = () => (target: typeof MyClass) => target;

@Decorator()
export class MyClass {
  constructor() {
    proj1();
  }
}
"#,
    );

    let affected = branch.get_affected();

    // Both proj1 and proj2 changed, and their dependencies
    // proj1 -> proj2 (uses it)
    // proj2 -> proj3 (proj3 uses anotherFn from proj2)
    let mut sorted_affected = affected.clone();
    sorted_affected.sort();
    assert_eq!(sorted_affected, vec!["proj1", "proj2", "proj3"]);
}

#[test]
fn test_no_changes() {
    let branch = TestBranch::new("test-no-change");

    // Don't make any changes

    let affected = branch.get_affected();

    // No changes, no affected projects
    assert!(affected.is_empty());
}

#[test]
fn test_internal_function_affecting_exported_component() {
    // When an internal function changes, we need to find which exported symbols
    // use it and track references to those exported symbols
    let mut branch = TestBranch::new("test-internal-fn");

    // Create a file with an internal function used by an exported component
    branch.make_change(
        "proj1/utils.ts",
        r#"
// Internal helper function (not exported)
function helperFn() {
  return 'helper-original';
}

// Exported component that uses the internal function
export function PublicAPI() {
  return helperFn();
}
"#,
    );

    // Create proj2 that imports the exported component
    branch.make_change(
        "proj2/index.ts",
        r#"import { proj1 } from '@monorepo/proj1';
import { PublicAPI } from '@monorepo/proj1/utils';

export { proj1 } from '@monorepo/proj1';

export function proj2() {
  proj1();
  return PublicAPI();
}
"#,
    );

    // Now change the internal helper function
    branch.make_change(
        "proj1/utils.ts",
        r#"
// Internal helper function (not exported) - MODIFIED
function helperFn() {
  return 'helper-modified';
}

// Exported component that uses the internal function
export function PublicAPI() {
  return helperFn();
}
"#,
    );

    let affected = branch.get_affected();

    // proj1 should be affected (changed file)
    assert!(
        affected.contains(&"proj1".to_string()),
        "proj1 should be affected"
    );

    // proj2 should be affected because:
    // 1. helperFn (internal) changed
    // 2. helperFn is used by PublicAPI (exported)
    // 3. PublicAPI is imported by proj2
    assert!(
        affected.contains(&"proj2".to_string()),
        "proj2 should be affected when internal function used by imported API changes"
    );

    // proj3 should also be affected due to implicit dependency on proj1
    assert!(
        affected.contains(&"proj3".to_string()),
        "proj3 should be affected (implicit dependency)"
    );
}

#[test]
fn test_decorator_change() {
    let mut branch = TestBranch::new("test-decorator");

    // Change the decorator in proj2
    branch.make_change(
        "proj2/index.ts",
        r#"import { proj1 } from '@monorepo/proj1';

export { proj1 } from '@monorepo/proj1';

export function proj2() {
  proj1();
  return 'proj2';
}

export function anotherFn() {
  return 'anotherFn';
}

const Decorator = () => (target: typeof MyClass) => {
  console.log('Decorator modified');
  return target;
};

@Decorator()
export class MyClass {
  constructor() {
    proj1();
  }
}
"#,
    );

    let affected = branch.get_affected();

    // Only proj2 should be affected (decorator is internal)
    assert_eq!(affected, vec!["proj2"]);
}

#[test]
fn test_interface_property_reorder() {
    let mut branch = TestBranch::new("test-interface-reorder");

    // proj1: defines interface and function that uses it
    // proj2: imports and uses the function from proj1

    // Initial state for proj1
    branch.make_change(
        "proj1/index.ts",
        r#"// Interface for options
export interface MyOptions {
  readonly optionA: string;
  readonly optionB: number;
  readonly optionC: boolean;
}

// Function that uses the interface
export function useMyOptions(options: MyOptions): string {
  return `A: ${options.optionA}, B: ${options.optionB}, C: ${options.optionC}`;
}
"#,
    );

    // proj2 uses the function from proj1
    branch.make_change(
        "proj2/index.ts",
        r#"import { useMyOptions, MyOptions } from '@monorepo/proj1';

// Component that uses useMyOptions
export function MyComponent() {
  const options: MyOptions = {
    optionA: 'test',
    optionB: 42,
    optionC: true,
  };

  return useMyOptions(options);
}
"#,
    );

    // Now reorder properties in the interface
    branch.make_change(
        "proj1/index.ts",
        r#"// Interface for options
export interface MyOptions {
  readonly optionA: string;
  readonly optionC: boolean;  // Moved up
  readonly optionB: number;   // Moved down
}

// Function that uses the interface
export function useMyOptions(options: MyOptions): string {
  return `A: ${options.optionA}, B: ${options.optionB}, C: ${options.optionC}`;
}
"#,
    );

    let affected = branch.get_affected();

    // Both proj1 (where the interface changed) and proj2 (which uses the function)
    // should be affected, even though the interface property change doesn't directly
    // affect runtime behavior
    let mut sorted_affected = affected.clone();
    sorted_affected.sort();
    assert_eq!(
        sorted_affected,
        vec!["proj1", "proj2", "proj3"], // proj3 due to implicit dependency
        "Interface property reorder should affect all projects that transitively use it"
    );
}

#[test]
fn test_object_literal_property_reorder() {
    let mut branch = TestBranch::new("test-object-literal-reorder");

    // Create initial theme.ts with object literal
    branch.make_change(
        "proj1/theme.ts",
        r#"// This file simulates a scenario like vanilla-extract's createGlobalTheme
// where object literals are passed to function calls for side effects

// Simulate imported colors
const colors = {
  red: '#ff0000',
  blue: '#0000ff',
  green: '#00ff00',
};

// Simulate a theme creation function (like vanilla-extract's createGlobalTheme)
function createTheme(selector: string, vars: any) {
  // Side effect: registers theme globally
  // Returns nothing or void
}

// Create theme with object literal
// Changes to property order here should NOT trigger false positive symbol tracking
createTheme('.theme', {
  primaryColor: colors.blue,
  secondaryColor: colors.red,
  accentColor: colors.green,
});

// This is what proj2 would actually import - the exported function
export function getTheme() {
  return 'theme-applied';
}
"#,
    );

    // Now reorder properties in the object literal
    branch.make_change(
        "proj1/theme.ts",
        r#"// This file simulates a scenario like vanilla-extract's createGlobalTheme
// where object literals are passed to function calls for side effects

// Simulate imported colors
const colors = {
  red: '#ff0000',
  blue: '#0000ff',
  green: '#00ff00',
};

// Simulate a theme creation function (like vanilla-extract's createGlobalTheme)
function createTheme(selector: string, vars: any) {
  // Side effect: registers theme globally
  // Returns nothing or void
}

// Create theme with object literal
// Changes to property order here should NOT trigger false positive symbol tracking
createTheme('.theme', {
  secondaryColor: colors.red,  // MOVED: was second, now first
  primaryColor: colors.blue,   // MOVED: was first, now second
  accentColor: colors.green,
});

// This is what proj2 would actually import - the exported function
export function getTheme() {
  return 'theme-applied';
}
"#,
    );

    let affected = branch.get_affected();

    // Only proj1 should be affected (the file itself changed)
    // proj3 should also be affected due to implicit dependency on proj1
    // proj2 should NOT be affected because getTheme (the exported symbol) didn't change
    let mut sorted_affected = affected.clone();
    sorted_affected.sort();

    // Only proj1 and proj3 (implicit dep) are affected
    assert_eq!(
        sorted_affected,
        vec!["proj1", "proj3"],
        "Object literal property reorder should only affect owning project and implicit deps, not consumers"
    );
}

#[test]
fn test_dynamic_import_only_affects_when_changed() {
    let mut branch = TestBranch::new("test-dynamic-import-selective");

    // Add a file to proj2 with dynamic import from proj1
    branch.make_change(
        "proj2/conditional-import.ts",
        r#"export async function conditionalLoad() {
  if (condition) {
    const module = await import('@monorepo/proj1');
    return module.proj1();
  }
  return 'default';
}
"#,
    );

    // Change proj2's own code, NOT proj1
    branch.make_change(
        "proj2/index.ts",
        r#"import { proj1 } from '@monorepo/proj1';

export { proj1 } from '@monorepo/proj1';

export function proj2() {
  proj1();
  return 'proj2-changed-locally';
}

export function anotherFn() {
  return 'anotherFn-modified';
}

const Decorator = () => (target: typeof MyClass) => target;

@Decorator()
export class MyClass {
  constructor() {
    proj1();
  }
}
"#,
    );

    let affected = branch.get_affected();

    // Only proj2 should be affected (it changed), not proj1
    // proj3 should NOT be affected (proj1 didn't change)
    assert!(
        affected.contains(&"proj2".to_string()),
        "proj2 should be affected (it changed)"
    );
    assert!(
        !affected.contains(&"proj1".to_string()),
        "proj1 should NOT be affected (it didn't change)"
    );
}

#[test]
fn test_non_string_literal_dynamic_import_no_crash() {
    let mut branch = TestBranch::new("test-nonstring-dynamic");

    // Template literal and variable dynamic imports should not crash or mis-cascade.
    // These are silently skipped during extraction (logged as warnings).
    branch.make_change(
        "proj2/variable-import.ts",
        r#"const moduleName = '@monorepo/proj1';

export async function loadVariable() {
  const mod = await import(moduleName);
  return mod;
}

export async function loadTemplate() {
  const name = 'proj1';
  const mod = await import(`@monorepo/${name}`);
  return mod;
}
"#,
    );

    branch.make_change(
        "proj1/index.ts",
        r#"export function proj1() {
  return 'proj1-nonstring-test';
}

export function unusedFn() {
  return 'unusedFn';
}
"#,
    );

    let affected = branch.get_affected();

    // Should not crash. proj1 changed, proj2 has non-string dynamic imports
    // which are skipped — proj2 is only affected if its own files are in the diff.
    assert!(
        affected.contains(&"proj1".to_string()),
        "proj1 should be affected (changed)"
    );
    assert!(
        affected.contains(&"proj2".to_string()),
        "proj2 should be affected (variable-import.ts is a new file in the diff)"
    );
}

#[test]
fn test_html_template_change_affects_angular_component() {
    let mut branch = TestBranch::new("test-html-template");

    // Create an Angular-style component with templateUrl
    branch.make_change(
        "proj1/hero.component.ts",
        r#"import { Component } from '@angular/core';

@Component({
  selector: 'app-hero',
  templateUrl: './hero.component.html',
  styleUrls: ['./hero.component.css'],
})
export class HeroComponent {
  title = 'Hero Section';
}
"#,
    );

    // Create the template file
    branch.make_change("proj1/hero.component.html", "<h1>{{ title }}</h1>");

    // Create the style file
    branch.make_change("proj1/hero.component.css", ".hero { color: red; }");

    // Create proj2 that imports HeroComponent
    branch.make_change(
        "proj2/index.ts",
        r#"import { proj1 } from '@monorepo/proj1';
import { HeroComponent } from '@monorepo/proj1/hero.component';

export { proj1 } from '@monorepo/proj1';
export { HeroComponent } from '@monorepo/proj1/hero.component';

export function proj2() {
  proj1();
  return 'proj2';
}

export function anotherFn() {
  return 'anotherFn';
}
"#,
    );

    // Now change ONLY the HTML template
    branch.make_change(
        "proj1/hero.component.html",
        "<h1 class=\"large\">{{ title }}</h1>",
    );

    let affected = branch.get_affected();

    // proj1 should be affected (template changed, component references it)
    assert!(
        affected.contains(&"proj1".to_string()),
        "proj1 should be affected (html template changed)"
    );

    // proj2 should be affected (imports HeroComponent which uses the template)
    assert!(
        affected.contains(&"proj2".to_string()),
        "proj2 should be affected (imports component using the template)"
    );

    // proj3 should be affected (implicit dependency on proj1)
    assert!(
        affected.contains(&"proj3".to_string()),
        "proj3 should be affected (implicit dependency on proj1)"
    );
}

#[test]
fn test_css_stylesheet_change_affects_importing_file() {
    let mut branch = TestBranch::new("test-css-change");

    // Create a CSS file
    branch.make_change(
        "proj1/styles.css",
        r#".button {
  background-color: blue;
  padding: 10px;
}
"#,
    );

    // Create a TS file that imports the CSS
    branch.make_change(
        "proj1/button.ts",
        r#"import './styles.css';

export function renderButton() {
  return '<button class="button">Click me</button>';
}
"#,
    );

    // proj2 imports renderButton
    branch.make_change(
        "proj2/index.ts",
        r#"import { proj1 } from '@monorepo/proj1';
import { renderButton } from '@monorepo/proj1/button';

export { proj1 } from '@monorepo/proj1';

export function proj2() {
  proj1();
  return renderButton();
}

export function anotherFn() {
  return 'anotherFn';
}
"#,
    );

    // Now change ONLY the CSS file
    branch.make_change(
        "proj1/styles.css",
        r#".button {
  background-color: red;
  padding: 12px;
}
"#,
    );

    let affected = branch.get_affected();

    // proj1 should be affected (CSS changed, button.ts imports it)
    assert!(
        affected.contains(&"proj1".to_string()),
        "proj1 should be affected (css file changed)"
    );

    // proj2 should be affected (imports renderButton which uses the CSS)
    assert!(
        affected.contains(&"proj2".to_string()),
        "proj2 should be affected (imports function from file using the CSS)"
    );
}

#[test]
fn test_json_config_change_affects_importing_file() {
    let mut branch = TestBranch::new("test-json-config");

    // Create a JSON config file
    branch.make_change(
        "proj1/config.json",
        r#"{
  "apiUrl": "https://api.example.com",
  "timeout": 5000
}
"#,
    );

    // Create a TS file that imports the JSON config
    branch.make_change(
        "proj1/api.ts",
        r#"import config from './config.json';

export function getApiUrl() {
  return config.apiUrl;
}

export function getTimeout() {
  return config.timeout;
}
"#,
    );

    // proj2 imports getApiUrl
    branch.make_change(
        "proj2/index.ts",
        r#"import { proj1 } from '@monorepo/proj1';
import { getApiUrl } from '@monorepo/proj1/api';

export { proj1 } from '@monorepo/proj1';

export function proj2() {
  proj1();
  return getApiUrl();
}

export function anotherFn() {
  return 'anotherFn';
}
"#,
    );

    // Now change ONLY the JSON config
    branch.make_change(
        "proj1/config.json",
        r#"{
  "apiUrl": "https://api.example.com/v2",
  "timeout": 10000
}
"#,
    );

    let affected = branch.get_affected();

    // proj1 should be affected (JSON changed, api.ts imports it)
    assert!(
        affected.contains(&"proj1".to_string()),
        "proj1 should be affected (json config changed)"
    );

    // proj2 should be affected (imports getApiUrl which uses the JSON)
    assert!(
        affected.contains(&"proj2".to_string()),
        "proj2 should be affected (imports function from file using the JSON)"
    );
}

#[test]
fn test_unreferenced_asset_only_affects_owning_project() {
    let mut branch = TestBranch::new("test-unreferenced-asset");

    // Create an asset file that's not referenced anywhere
    branch.make_change("proj1/unused-logo.png", "fake-png-binary-data");

    let affected = branch.get_affected();

    // Only proj1 should be affected (file is in its source root)
    assert!(
        affected.contains(&"proj1".to_string()),
        "proj1 should be affected (owns the file)"
    );

    // proj2 should NOT be affected (doesn't reference the asset)
    assert!(
        !affected.contains(&"proj2".to_string()),
        "proj2 should NOT be affected (doesn't reference the asset)"
    );

    // proj3 should be affected due to implicit dependency on proj1
    assert!(
        affected.contains(&"proj3".to_string()),
        "proj3 should be affected (implicit dependency on proj1)"
    );
}

#[test]
fn test_asset_outside_projects_is_ignored() {
    let mut branch = TestBranch::new("test-asset-outside");

    // Create an asset file outside any project
    branch.make_change("shared-assets/logo.svg", "<svg>test</svg>");

    let affected = branch.get_affected();

    // No projects should be affected (file is not in any project's source root)
    assert!(
        affected.is_empty(),
        "No projects should be affected when asset is outside all project roots"
    );
}

#[test]
fn test_asset_change_traces_through_exported_symbol() {
    let mut branch = TestBranch::new("test-asset-chain");

    // Create a JSON asset file (simulating a lottie/config)
    branch.make_change(
        "proj1/animation.json",
        r#"{ "name": "animation", "frames": 100 }"#,
    );

    // Create a component that imports and uses the JSON asset
    // The key is that the import is used by an exported symbol
    branch.make_change(
        "proj1/animation-component.ts",
        r#"import animationData from './animation.json';

const animationString = JSON.stringify(animationData);

export function AnimationComponent() {
  return JSON.parse(animationString);
}
"#,
    );

    // proj2 imports AnimationComponent
    branch.make_change(
        "proj2/index.ts",
        r#"import { proj1 } from '@monorepo/proj1';
import { AnimationComponent } from '@monorepo/proj1/animation-component';

export { proj1 } from '@monorepo/proj1';

export function proj2() {
  proj1();
  return AnimationComponent();
}

export function anotherFn() {
  return 'anotherFn';
}
"#,
    );

    // Now change ONLY the JSON asset
    branch.make_change(
        "proj1/animation.json",
        r#"{ "name": "animation", "frames": 200 }"#,
    );

    let affected = branch.get_affected();

    // proj1 should be affected (owns the asset)
    assert!(
        affected.contains(&"proj1".to_string()),
        "proj1 should be affected (owns the asset file)"
    );

    // proj2 should be affected (imports AnimationComponent which uses the asset)
    assert!(
        affected.contains(&"proj2".to_string()),
        "proj2 should be affected (imports component that uses the asset)"
    );
}

#[test]
fn test_asset_chain_with_intermediate_constant() {
    let mut branch = TestBranch::new("test-asset-intermediate");

    // Create a data file
    branch.make_change("proj1/data.json", r#"{ "value": 42 }"#);

    // Component with intermediate constant (like diamondLottie → diamondLottieText → Diamond)
    branch.make_change(
        "proj1/data-component.ts",
        r#"import data from './data.json';

const dataText = JSON.stringify(data);
const processedData = dataText.toUpperCase();

export function DataComponent() {
  return processedData;
}

export function getDataLength() {
  return processedData.length;
}
"#,
    );

    // proj2 imports from proj1
    branch.make_change(
        "proj2/index.ts",
        r#"import { proj1 } from '@monorepo/proj1';
import { DataComponent, getDataLength } from '@monorepo/proj1/data-component';

export { proj1 } from '@monorepo/proj1';

export function proj2() {
  proj1();
  return { component: DataComponent(), length: getDataLength() };
}

export function anotherFn() {
  return 'anotherFn';
}
"#,
    );

    // Change only the data file
    branch.make_change("proj1/data.json", r#"{ "value": 100 }"#);

    let affected = branch.get_affected();

    // Both projects should be affected
    assert!(
        affected.contains(&"proj1".to_string()),
        "proj1 should be affected"
    );
    assert!(
        affected.contains(&"proj2".to_string()),
        "proj2 should be affected via asset → constant → export chain"
    );
}

#[test]
fn test_reexport_path_change_affects_project() {
    let mut branch = TestBranch::new("test-reexport-path-change");

    // Setup: proj1 has a utility file
    branch.make_change(
        "proj1/utils.ts",
        r#"export function helperFn() {
  return 'helper';
}
"#,
    );

    // proj2 barrel file re-exports from proj1
    branch.make_change(
        "proj2/index.ts",
        r#"import { proj1 } from '@monorepo/proj1';

export { proj1 } from '@monorepo/proj1';
export { helperFn } from '@monorepo/proj1/utils';

export function proj2() {
  proj1();
  return 'proj2';
}

export function anotherFn() {
  return 'anotherFn';
}
"#,
    );

    // Now change ONLY the re-export path (simulating a barrel file update)
    branch.make_change(
        "proj2/index.ts",
        r#"import { proj1 } from '@monorepo/proj1';

export { proj1 } from '@monorepo/proj1';
export { helperFn as renamedHelper } from '@monorepo/proj1/utils';

export function proj2() {
  proj1();
  return 'proj2';
}

export function anotherFn() {
  return 'anotherFn';
}
"#,
    );

    let affected = branch.get_affected();

    // proj2 should be affected because the re-export specifier changed
    assert!(
        affected.contains(&"proj2".to_string()),
        "proj2 should be affected when a re-export specifier changes. Got: {:?}",
        affected
    );
}

#[test]
fn test_large_single_export_deduplication() {
    let mut branch = TestBranch::new("test-large-single-export-dedup");

    // Create a file in proj1 with a large exported object (many lines, one symbol)
    let mut large_object = String::from("export const bigConfig: Record<string, string> = {\n");
    for i in 0..200 {
        large_object.push_str(&format!("  key{i}: 'value{i}',\n"));
    }
    large_object.push_str("};\n");
    branch.make_change("proj1/big-config.ts", &large_object);

    // proj2 imports this symbol
    branch.make_change(
        "proj2/consumer.ts",
        "import { bigConfig } from '@monorepo/proj1/big-config';\nexport const count = Object.keys(bigConfig).length;\n",
    );

    // Commit the baseline
    // Now make a large change: add 100 more entries to the same exported object
    let mut updated_object = String::from("export const bigConfig: Record<string, string> = {\n");
    for i in 0..300 {
        updated_object.push_str(&format!("  key{i}: 'value{i}',\n"));
    }
    updated_object.push_str("};\n");
    branch.make_change("proj1/big-config.ts", &updated_object);

    let affected = branch.get_affected();

    // proj1 is directly affected (owns the file)
    assert!(
        affected.contains(&"proj1".to_string()),
        "proj1 should be affected (owns the changed file). Got: {:?}",
        affected
    );

    // proj2 should be affected (imports bigConfig)
    assert!(
        affected.contains(&"proj2".to_string()),
        "proj2 should be affected (imports bigConfig from proj1). Got: {:?}",
        affected
    );

    // proj3 should be affected (implicit dependency on proj1)
    assert!(
        affected.contains(&"proj3".to_string()),
        "proj3 should be affected (implicit dep on proj1). Got: {:?}",
        affected
    );
}
