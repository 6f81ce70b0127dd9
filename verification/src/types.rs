//! The data of the analysis: projects, changes, references, causes, results.
//!
//! Paths are slash-separated texts; two of them are the same path when their
//! components are (see [`crate::paths`]).
use crate::text::chars_of;
use std::str::FromStr;
use vstd::prelude::*;

verus! {

/// Lockfile change detection strategy
#[derive(Debug, Clone, Copy, PartialEq, Eq, Structural)]
#[non_exhaustive]
pub enum LockfileStrategy {
    /// Lockfile changes are ignored entirely
    Off,
    /// Mark projects that import affected deps (no reference chain tracing)
    Direct,
    /// Mark importing projects AND trace full reference chains
    Full,
}

/// The name of a strategy.
pub open spec fn strategy_name(strategy: LockfileStrategy) -> Seq<char> {
    match strategy {
        LockfileStrategy::Off => "none"@,
        LockfileStrategy::Direct => "direct"@,
        LockfileStrategy::Full => "full"@,
    }
}

/// The small letter for a capital letter of ASCII; any other character itself.
pub open spec fn small(c: char) -> char {
    if 'A' <= c <= 'Z' {
        (c as u32 + 32) as char
    } else {
        c
    }
}

/// Whether a text is `name` up to the case of its ASCII letters.
pub open spec fn spells(text: Seq<char>, name: Seq<char>) -> bool {
    text.map_values(|c: char| small(c)) == name
}

/// Whether a text is `name` up to the case of its ASCII letters.
fn is_spelled(text: &str, name: &str) -> (r: bool)
    ensures
        r == spells(text@, name@),
{
    let chars: Vec<char> = chars_of(text);
    let wanted: Vec<char> = chars_of(name);
    let ghost lowered = text@.map_values(|c: char| small(c));
    if chars.len() != wanted.len() {
        return false;
    }
    let mut i: usize = 0;
    while i < chars.len()
        invariant
            chars@ == text@,
            wanted@ == name@,
            lowered == text@.map_values(|c: char| small(c)),
            chars@.len() == wanted@.len(),
            i <= chars@.len(),
            forall|k: int| 0 <= k < i ==> lowered[k] == name@[k],
        decreases chars@.len() - i,
    {
        let c: char = chars[i];
        let lower: char = if 'A' <= c && c <= 'Z' {
            (c as u8 + 32) as char
        } else {
            c
        };
        if lower != wanted[i] {
            proof {
                assert(lowered[i as int] != name@[i as int]);
            }
            return false;
        }
        i = i + 1;
    }
    proof {
        assert(lowered =~= name@);
    }
    true
}

impl LockfileStrategy {
    /// The name of the strategy.
    pub fn to_string(&self) -> (r: String)
        ensures
            r@ == strategy_name(*self),
    {
        match self {
            LockfileStrategy::Off => "none".to_owned(),
            LockfileStrategy::Direct => "direct".to_owned(),
            LockfileStrategy::Full => "full".to_owned(),
        }
    }

    /// The strategy with the given name, in whatever case it is written.
    pub fn named(s: &str) -> (r: Result<LockfileStrategy, String>)
        ensures
            match r {
                Ok(strategy) => spells(s@, strategy_name(strategy)),
                Err(message) => {
                    &&& forall|strategy: LockfileStrategy| !spells(s@, #[trigger] strategy_name(strategy))
                    &&& message@ == "Invalid lockfile strategy '"@ + s@
                        + "'. Expected: none, direct, full"@
                },
            },
    {
        if is_spelled(s, "none") {
            Ok(LockfileStrategy::Off)
        } else if is_spelled(s, "direct") {
            Ok(LockfileStrategy::Direct)
        } else if is_spelled(s, "full") {
            Ok(LockfileStrategy::Full)
        } else {
            let mut message: String = "Invalid lockfile strategy '".to_owned();
            message.append(s);
            message.append("'. Expected: none, direct, full");
            Err(message)
        }
    }
}

impl FromStr for LockfileStrategy {
    type Err = String;

    /// The strategy with the given name, in whatever case it is written.
    fn from_str(s: &str) -> (r: Result<LockfileStrategy, String>)
        ensures
            match r {
                Ok(strategy) => spells(s@, strategy_name(strategy)),
                Err(message) => {
                    &&& forall|strategy: LockfileStrategy| !spells(s@, #[trigger] strategy_name(strategy))
                    &&& message@ == "Invalid lockfile strategy '"@ + s@
                        + "'. Expected: none, direct, full"@
                },
            },
    {
        LockfileStrategy::named(s)
    }
}

impl Default for LockfileStrategy {
    fn default() -> (r: LockfileStrategy)
        ensures
            r == LockfileStrategy::Direct,
    {
        LockfileStrategy::Direct
    }
}

/// A strategy's name names that strategy and no other, in any case.
pub proof fn law_strategy_names(a: LockfileStrategy, b: LockfileStrategy, text: Seq<char>)
    ensures
        spells(strategy_name(a), strategy_name(a)),
        spells(text, strategy_name(a)) && spells(text, strategy_name(b)) ==> a == b,
{
    reveal_strlit("none");
    reveal_strlit("direct");
    reveal_strlit("full");
    let name = strategy_name(a);
    let lowered = name.map_values(|c: char| small(c));
    assert forall|i: int| 0 <= i < name.len() implies lowered[i] == name[i] by {
        assert(lowered[i] == small(name[i]));
    }
    assert(lowered =~= name);
    assert("none"@[0] != "full"@[0]);
}

/// A project in the workspace
#[derive(Debug, Clone)]
pub struct Project {
    /// Project name
    pub name: String,
    /// Path to the project root directory (where project.json lives, relative to workspace root)
    pub root: String,
    /// Path to the project source root (may differ from root, e.g. "libs/my-lib/src")
    pub source_root: String,
    /// Path to the project's tsconfig.json (optional)
    pub ts_config: Option<String>,
    /// Implicit dependencies (projects that should be marked affected when this one changes)
    pub implicit_dependencies: Vec<String>,
    /// Available targets (Nx only)
    pub targets: Vec<String>,
}

/// A file with changed lines
#[derive(Debug, Clone)]
pub struct ChangedFile {
    /// Path to the file (relative to workspace root)
    pub file_path: String,
    /// Line numbers that changed (1-indexed).
    /// Empty for binary files (entire file considered changed).
    pub changed_lines: Vec<usize>,
}

/// A reference to a symbol in the code
#[derive(Debug, Clone, PartialEq, Eq)]
pub struct Reference {
    /// File where the reference is located
    pub file_path: String,
    /// Line number (1-indexed)
    pub line: usize,
    /// Column number (0-indexed)
    pub column: usize,
}

/// What a [`Reference`] stands for.
#[verifier::ext_equal]
pub struct ReferenceView {
    pub file_path: Seq<char>,
    pub line: usize,
    pub column: usize,
}

impl View for Reference {
    type V = ReferenceView;

    open spec fn view(&self) -> ReferenceView {
        ReferenceView { file_path: self.file_path@, line: self.line, column: self.column }
    }
}

/// A reference to a non-source asset in a source file
#[derive(Debug, Clone)]
pub struct AssetReference {
    /// The source file containing the reference
    pub source_file: String,
    /// Line number where the reference appears (1-indexed)
    pub line: usize,
    /// Column number of the reference start (0-indexed)
    pub column: usize,
    /// The matched path string from the source file (useful for debugging)
    pub matched_path: String,
}

/// Import information
#[derive(Debug, Clone, PartialEq, Eq)]
pub struct Import {
    /// The imported symbol name (from the source file)
    pub imported_name: String,
    /// The local name (in the importing file)
    pub local_name: String,
    /// The module specifier (e.g., "./utils" or "lodash")
    pub from_module: String,
    /// The resolved file path (after module resolution)
    pub resolved_file: Option<String>,
    /// Whether this is a type-only import
    pub is_type_only: bool,
    /// Whether this import comes from a dynamic import() expression.
    /// Dynamic imports with string literal specifiers are treated like static
    /// namespace imports — only explicit member access propagates changes.
    pub is_dynamic: bool,
}

/// What an [`Import`] stands for.
#[verifier::ext_equal]
pub struct ImportView {
    pub imported_name: Seq<char>,
    pub local_name: Seq<char>,
    pub from_module: Seq<char>,
    pub resolved_file: Option<Seq<char>>,
    pub is_type_only: bool,
    pub is_dynamic: bool,
}

/// The text in an optional string.
pub open spec fn text_in(text: Option<String>) -> Option<Seq<char>> {
    match text {
        Some(t) => Some(t@),
        None => None,
    }
}

impl View for Import {
    type V = ImportView;

    open spec fn view(&self) -> ImportView {
        ImportView {
            imported_name: self.imported_name@,
            local_name: self.local_name@,
            from_module: self.from_module@,
            resolved_file: text_in(self.resolved_file),
            is_type_only: self.is_type_only,
            is_dynamic: self.is_dynamic,
        }
    }
}

/// Export information
#[derive(Debug, Clone, PartialEq, Eq)]
pub struct Export {
    /// The exported symbol name
    pub exported_name: String,
    /// The local name (if different from exported name)
    pub local_name: Option<String>,
    /// If this is a re-export, the module it's re-exported from
    pub re_export_from: Option<String>,
}

/// What an [`Export`] stands for.
#[verifier::ext_equal]
pub struct ExportView {
    pub exported_name: Seq<char>,
    pub local_name: Option<Seq<char>>,
    pub re_export_from: Option<Seq<char>>,
}

impl View for Export {
    type V = ExportView;

    open spec fn view(&self) -> ExportView {
        ExportView {
            exported_name: self.exported_name@,
            local_name: text_in(self.local_name),
            re_export_from: text_in(self.re_export_from),
        }
    }
}

/// Configuration for the true affected algorithm
#[derive(Debug, Clone)]
pub struct TrueAffectedConfig {
    /// Current working directory
    pub cwd: String,
    /// Base branch to compare against
    pub base: String,
    /// Head commit to compare (defaults to working tree)
    pub head: Option<String>,
    /// Root tsconfig path
    pub root_ts_config: Option<String>,
    /// Projects in the workspace
    pub projects: Vec<Project>,
    /// Additional file patterns to take in
    pub include_patterns: Vec<String>,
    /// Paths to ignore
    pub ignored_paths: Vec<String>,
    /// Lockfile change detection strategy
    pub lockfile_strategy: LockfileStrategy,
    /// Resolve workspace package subpaths through package.json exports.
    pub resolve_package_exports: bool,
}

/// Result of the true affected analysis
#[derive(Debug, Clone)]
pub struct AffectedResult {
    /// List of affected project names
    pub affected_projects: Vec<String>,
    /// Detailed report with causality information (optional)
    pub report: Option<AffectedReport>,
}

/// Detailed report of affected projects with causality information
#[derive(Debug, Clone)]
pub struct AffectedReport {
    /// Information about each affected project
    pub projects: Vec<AffectedProjectInfo>,
    /// Changed files that triggered Nx `namedInputs` global invalidation.
    /// Empty for non-global runs.
    pub global_triggers: Vec<GlobalTrigger>,
    /// Aggregate counts for at-a-glance interpretation of the run.
    pub totals: ReportTotals,
    /// domino crate version that produced this report.
    pub version: &'static str,
    /// When the run started (seconds since Unix epoch). Integer chosen over
    /// ISO-8601 to avoid pulling in a new date-time dependency just for this.
    pub run_started_at_unix_secs: i64,
}

/// A changed file that matched a `{workspaceRoot}/...` pattern in nx.json's
/// `namedInputs`, triggering global invalidation.
#[derive(Debug, Clone)]
pub struct GlobalTrigger {
    /// File that matched (relative to workspace root).
    pub file: String,
    /// Name of the `namedInputs` entry whose pattern matched, e.g. `sharedGlobals`.
    pub named_input: String,
    /// Original pattern string from nx.json, e.g. `{workspaceRoot}/nx.json`.
    pub raw_pattern: String,
}

/// Aggregate counts surfaced at the top of the HTML report.
#[derive(Debug, Clone, Copy, PartialEq, Eq, Structural)]
pub struct ReportTotals {
    /// Projects affected purely via global invalidation.
    pub globally_invalidated: usize,
    /// Projects affected via real semantic analysis (DirectChange,
    /// ImportedSymbol, AssetChange, LockfileChange, ...).
    pub semantically_affected: usize,
    /// Projects affected via both global and semantic causes.
    pub overlap: usize,
    /// Total number of files changed in the diff (pre-filtering).
    pub changed_files: usize,
}

impl Default for ReportTotals {
    fn default() -> (r: ReportTotals)
        ensures
            r == (ReportTotals {
                globally_invalidated: 0,
                semantically_affected: 0,
                overlap: 0,
                changed_files: 0,
            }),
    {
        ReportTotals {
            globally_invalidated: 0,
            semantically_affected: 0,
            overlap: 0,
            changed_files: 0,
        }
    }
}

/// Information about why a project is affected
#[derive(Debug, Clone)]
pub struct AffectedProjectInfo {
    /// Project name
    pub name: String,
    /// Reasons why this project is affected
    pub causes: Vec<AffectCause>,
}

/// Reason why a project is affected
#[derive(Debug, Clone, PartialEq, Eq)]
pub enum AffectCause {
    /// Direct change to a file in this project
    DirectChange {
        /// File that was changed
        file: String,
        /// Symbol that was changed (if identified)
        symbol: Option<String>,
        /// Line number where the change occurred
        line: usize,
    },
    /// Imported a changed symbol from another project
    ImportedSymbol {
        /// Source project that was changed
        source_project: String,
        /// The symbol that was imported
        symbol: String,
        /// File where the import occurs
        via_file: String,
        /// Original file where symbol was changed
        source_file: String,
    },
    /// Re-exported a changed symbol
    ReExported {
        /// File that re-exports the symbol
        through_file: String,
        /// The symbol being re-exported
        symbol: String,
        /// Original source file
        source_file: String,
    },
    /// Implicit dependency on another affected project
    ImplicitDependency {
        /// Project this depends on
        depends_on: String,
    },
    /// Asset file changed and is referenced by source code
    AssetChange {
        /// The asset file that changed
        asset_file: String,
        /// Source file that references the asset
        referenced_in: String,
        /// Line where the reference appears
        line: usize,
    },
    /// Lockfile dependency changed
    LockfileChange {
        /// The affected dependency name
        dependency: String,
        /// Source file that imports the dependency
        importing_file: String,
    },
    /// Global invalidation via Nx namedInputs (e.g., sharedGlobals)
    GlobalInvalidation {
        /// The file that triggered global invalidation
        file: String,
        /// The `namedInputs` entry whose pattern matched (e.g. `sharedGlobals`).
        /// Surfaced in the report so the user recognizes the term from their nx.json.
        named_input: String,
    },
}

/// What an [`AffectCause`] stands for.
#[verifier::ext_equal]
pub enum CauseView {
    DirectChange { file: Seq<char>, symbol: Option<Seq<char>>, line: usize },
    ImportedSymbol {
        source_project: Seq<char>,
        symbol: Seq<char>,
        via_file: Seq<char>,
        source_file: Seq<char>,
    },
    ReExported { through_file: Seq<char>, symbol: Seq<char>, source_file: Seq<char> },
    ImplicitDependency { depends_on: Seq<char> },
    AssetChange { asset_file: Seq<char>, referenced_in: Seq<char>, line: usize },
    LockfileChange { dependency: Seq<char>, importing_file: Seq<char> },
    GlobalInvalidation { file: Seq<char>, named_input: Seq<char> },
}

impl View for AffectCause {
    type V = CauseView;

    open spec fn view(&self) -> CauseView {
        match self {
            AffectCause::DirectChange { file, symbol, line } => CauseView::DirectChange {
                file: file@,
                symbol: text_in(*symbol),
                line: *line,
            },
            AffectCause::ImportedSymbol { source_project, symbol, via_file, source_file } =>
                CauseView::ImportedSymbol {
                source_project: source_project@,
                symbol: symbol@,
                via_file: via_file@,
                source_file: source_file@,
            },
            AffectCause::ReExported { through_file, symbol, source_file } =>
                CauseView::ReExported {
                through_file: through_file@,
                symbol: symbol@,
                source_file: source_file@,
            },
            AffectCause::ImplicitDependency { depends_on } => CauseView::ImplicitDependency {
                depends_on: depends_on@,
            },
            AffectCause::AssetChange { asset_file, referenced_in, line } =>
                CauseView::AssetChange {
                asset_file: asset_file@,
                referenced_in: referenced_in@,
                line: *line,
            },
            AffectCause::LockfileChange { dependency, importing_file } =>
                CauseView::LockfileChange {
                dependency: dependency@,
                importing_file: importing_file@,
            },
            AffectCause::GlobalInvalidation { file, named_input } =>
                CauseView::GlobalInvalidation { file: file@, named_input: named_input@ },
        }
    }
}

/// What a list of causes stands for.
pub open spec fn cause_views(causes: Seq<AffectCause>) -> Seq<CauseView> {
    causes.map_values(|cause: AffectCause| cause@)
}

/// A copy of an optional string.
pub fn copy_text(text: &Option<String>) -> (r: Option<String>)
    ensures
        text_in(r) == text_in(*text),
{
    match text {
        Some(t) => Some(t.clone()),
        None => None,
    }
}

impl AffectCause {
    /// A copy of the cause.
    pub fn copy(&self) -> (r: AffectCause)
        ensures
            r@ == self@,
    {
        match self {
            AffectCause::DirectChange { file, symbol, line } => AffectCause::DirectChange {
                file: file.clone(),
                symbol: copy_text(symbol),
                line: *line,
            },
            AffectCause::ImportedSymbol { source_project, symbol, via_file, source_file } =>
                AffectCause::ImportedSymbol {
                source_project: source_project.clone(),
                symbol: symbol.clone(),
                via_file: via_file.clone(),
                source_file: source_file.clone(),
            },
            AffectCause::ReExported { through_file, symbol, source_file } =>
                AffectCause::ReExported {
                through_file: through_file.clone(),
                symbol: symbol.clone(),
                source_file: source_file.clone(),
            },
            AffectCause::ImplicitDependency { depends_on } => AffectCause::ImplicitDependency {
                depends_on: depends_on.clone(),
            },
            AffectCause::AssetChange { asset_file, referenced_in, line } =>
                AffectCause::AssetChange {
                asset_file: asset_file.clone(),
                referenced_in: referenced_in.clone(),
                line: *line,
            },
            AffectCause::LockfileChange { dependency, importing_file } =>
                AffectCause::LockfileChange {
                dependency: dependency.clone(),
                importing_file: importing_file.clone(),
            },
            AffectCause::GlobalInvalidation { file, named_input } =>
                AffectCause::GlobalInvalidation {
                file: file.clone(),
                named_input: named_input.clone(),
            },
        }
    }
}

} // verus!
