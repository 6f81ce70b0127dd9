//! The true-affected algorithm: from changed files to affected projects.
//!
//! The analysis is a machine. Each step either goes on by itself or asks for
//! what lies outside the library (references in other files, references to an
//! asset, changed dependencies), which the caller finds and hands back.
use crate::fx::{in_order, insert_name, names_in, no_names, sort_names};
use crate::outcome::{conclude, is_outcome, list_project_names, project_names, RunInfo};
use crate::paths::{file_name, last_name};
use crate::semantic::analyzer::{
    exports_using, file_number, names_on_line, reference_views, AnalyzedFile, AnalyzedView,
    FileView, WorkspaceAnalyzer, WorkspaceView,
};
use crate::text::{byte_len, contains_text, holds_text, same, texts};
use crate::trace::{needs, symbol_pairs, symbols_of, AffectedState, Need, TraceView};
use crate::types::{
    cause_views, AffectCause, AffectedResult, AssetReference, CauseView, ChangedFile,
    GlobalTrigger, Import, ImportView, LockfileStrategy, Reference, TrueAffectedConfig,
};
use crate::utils::{is_source_file, is_source_path, IndexView, ProjectIndex};
use rustc_hash::FxHashSet;
use vstd::prelude::*;

verus! {

/// The cause that a changed line is.
pub open spec fn line_cause(path: Seq<char>, symbol: Option<Seq<char>>, line: usize) -> CauseView {
    CauseView::DirectChange { file: path, symbol, line }
}

/// The causes of a changed file whose symbols are not known: one for each
/// changed line, or one for line 0 where no lines are known.
pub open spec fn file_causes(path: Seq<char>, lines: Seq<usize>) -> Seq<CauseView> {
    if lines.len() == 0 {
        seq![line_cause(path, None, 0)]
    } else {
        lines.map_values(|line: usize| line_cause(path, None, line))
    }
}

/// The causes of a changed line with the symbols that it belongs to.
pub open spec fn named_causes(path: Seq<char>, line: usize, names: Seq<Seq<char>>) -> Seq<
    CauseView,
> {
    if names.len() == 0 {
        seq![line_cause(path, None, line)]
    } else {
        names.map_values(|name: Seq<char>| line_cause(path, Some(name), line))
    }
}

/// The causes of the first `upto` changed lines of an analyzed file.
pub open spec fn symbol_causes(
    file: FileView,
    path: Seq<char>,
    lines: Seq<usize>,
    upto: nat,
) -> Seq<CauseView>
    decreases upto,
{
    if upto == 0 {
        Seq::empty()
    } else {
        let line = lines[upto - 1];
        symbol_causes(file, path, lines, (upto - 1) as nat) + named_causes(
            path,
            line,
            names_on_line(file, line as nat, 0),
        )
    }
}

/// The causes of a changed file that was analyzed: those of its changed lines, or
/// one for line 0 where no lines are known.
pub open spec fn analyzed_causes(file: FileView, path: Seq<char>, lines: Seq<usize>) -> Seq<
    CauseView,
> {
    if lines.len() == 0 {
        file_causes(path, lines)
    } else {
        symbol_causes(file, path, lines, lines.len())
    }
}

/// The names with a further name, where they do not hold it yet.
pub open spec fn with_distinct(names: Seq<Seq<char>>, name: Seq<char>) -> Seq<Seq<char>> {
    if names.contains(name) {
        names
    } else {
        names.push(name)
    }
}

/// The names with further names, each once.
pub open spec fn with_all_distinct(names: Seq<Seq<char>>, more: Seq<Seq<char>>) -> Seq<Seq<char>>
    decreases more.len(),
{
    if more.len() == 0 {
        names
    } else {
        with_distinct(with_all_distinct(names, more.drop_last()), more.last())
    }
}

/// The symbols that the first `upto` changed lines of a file belong to, each
/// once.
pub open spec fn changed_symbols(file: FileView, lines: Seq<usize>, upto: nat) -> Seq<Seq<char>>
    decreases upto,
{
    if upto == 0 {
        Seq::empty()
    } else {
        with_all_distinct(
            changed_symbols(file, lines, (upto - 1) as nat),
            names_on_line(file, lines[upto - 1] as nat, 0),
        )
    }
}

/// What is to be done in an analysis.
pub enum Job {
    /// A source file was changed.
    Source(ChangedFile),
    /// Another file was changed.
    Asset(ChangedFile),
    /// A changed asset is referred to, in a line of a source file.
    AssetReference { asset: String, source_file: String, line: usize },
    /// The lockfile was changed.
    Lockfile,
    /// Symbols, each a file's number and a name, are to be traced together.
    Trace(Vec<(usize, String)>),
}

/// What a [`Job`] stands for.
#[verifier::ext_equal]
pub enum JobView {
    Source { path: Seq<char>, lines: Seq<usize> },
    Asset { path: Seq<char>, lines: Seq<usize> },
    AssetReference { asset: Seq<char>, source_file: Seq<char>, line: usize },
    Lockfile,
    Trace(Seq<(usize, Seq<char>)>),
}

impl View for Job {
    type V = JobView;

    open spec fn view(&self) -> JobView {
        match self {
            Job::Source(file) => JobView::Source {
                path: file.file_path@,
                lines: file.changed_lines@,
            },
            Job::Asset(file) => JobView::Asset {
                path: file.file_path@,
                lines: file.changed_lines@,
            },
            Job::AssetReference { asset, source_file, line } => JobView::AssetReference {
                asset: asset@,
                source_file: source_file@,
                line: *line,
            },
            Job::Lockfile => JobView::Lockfile,
            Job::Trace(symbols) => JobView::Trace(symbol_pairs(symbols@)),
        }
    }
}

/// What a list of jobs stands for.
pub open spec fn job_views(jobs: Seq<Job>) -> Seq<JobView> {
    jobs.map_values(|job: Job| job@)
}

/// The trace after a source file was changed: the projects that own it are
/// marked, for each line and the symbols that it belongs to.
pub open spec fn source_marked(
    workspace: WorkspaceView,
    index: IndexView,
    trace: TraceView,
    path: Seq<char>,
    lines: Seq<usize>,
) -> TraceView {
    trace.marked(
        index.owners(path, true),
        match file_number(workspace.files, path, 0) {
            Some(i) => analyzed_causes(workspace.files[i].file_data, path, lines),
            None => file_causes(path, lines),
        },
    )
}

/// The job to trace symbols, where there are any.
pub open spec fn trace_job(symbols: Seq<(usize, Seq<char>)>) -> Seq<JobView> {
    if symbols.len() == 0 {
        Seq::empty()
    } else {
        seq![JobView::Trace(symbols)]
    }
}

/// What a changed source file leaves to be done: the symbols of its changed
/// lines are traced together, where the file was analyzed.
pub open spec fn source_jobs(workspace: WorkspaceView, path: Seq<char>, lines: Seq<usize>) -> Seq<
    JobView,
> {
    match file_number(workspace.files, path, 0) {
        Some(i) => trace_job(
            symbols_of(
                i as usize,
                changed_symbols(workspace.files[i].file_data, lines, lines.len()),
            ),
        ),
        None => Seq::empty(),
    }
}

/// The local name of the first import, from `from` on, whose module holds a
/// text.
pub open spec fn import_naming(imports: Seq<ImportView>, text: Seq<char>, from: int) -> Option<
    Seq<char>,
>
    decreases imports.len() - from,
{
    if from >= imports.len() {
        None
    } else if holds_text(imports[from].from_module, text) {
        Some(imports[from].local_name)
    } else {
        import_naming(imports, text, from + 1)
    }
}

/// The symbols that a changed import is traced by: the exports that use it, or
/// itself where none does.
pub open spec fn symbols_behind(file: AnalyzedView, local_name: Seq<char>) -> Seq<Seq<char>> {
    let exported = exports_using(file, local_name);
    if exported.len() > 0 {
        exported
    } else {
        seq![local_name]
    }
}

/// The jobs to trace each symbol of a file on its own; the first comes last.
pub open spec fn single_traces(file: usize, names: Seq<Seq<char>>) -> Seq<JobView> {
    names.map_values(|name: Seq<char>| JobView::Trace(seq![(file, name)])).reverse()
}

/// What a reference to a changed asset leaves to be done: what the import of the
/// asset is traced by, each symbol on its own.
pub open spec fn asset_reference_jobs(
    workspace: WorkspaceView,
    asset: Seq<char>,
    source_file: Seq<char>,
) -> Seq<JobView> {
    let name = match last_name(asset) {
        Some(name) => name,
        None => Seq::empty(),
    };
    match file_number(workspace.files, source_file, 0) {
        Some(i) => match import_naming(workspace.files[i].imports, name, 0) {
            Some(local_name) => single_traces(
                i as usize,
                symbols_behind(workspace.files[i], local_name),
            ),
            None => Seq::empty(),
        },
        None => Seq::empty(),
    }
}

/// A module that imports name, and the changed dependency that it belongs to.
#[derive(Debug, Clone, PartialEq, Eq)]
pub struct ModuleMatch {
    pub from_module: String,
    pub dependency: String,
}

/// The changed dependency of a module, from match `from` on.
pub open spec fn dependency_of(matches: Seq<ModuleMatch>, module: Seq<char>, from: int) -> Option<
    Seq<char>,
>
    decreases matches.len() - from,
{
    if from >= matches.len() {
        None
    } else if matches[from].from_module@ == module {
        Some(matches[from].dependency@)
    } else {
        dependency_of(matches, module, from + 1)
    }
}

/// The causes that the first `upto` imports of a file bring by changed
/// dependencies.
pub open spec fn lockfile_causes(
    file: AnalyzedView,
    matches: Seq<ModuleMatch>,
    upto: nat,
) -> Seq<CauseView>
    decreases upto,
{
    if upto == 0 {
        Seq::empty()
    } else {
        let before = lockfile_causes(file, matches, (upto - 1) as nat);
        match dependency_of(matches, file.imports[upto - 1].from_module, 0) {
            Some(dependency) => before.push(
                CauseView::LockfileChange { dependency, importing_file: file.relative_path },
            ),
            None => before,
        }
    }
}

/// The symbols that the first `upto` imports of a file are traced by, where a
/// dependency changed.
pub open spec fn lockfile_symbols(
    file: AnalyzedView,
    matches: Seq<ModuleMatch>,
    upto: nat,
) -> Seq<Seq<char>>
    decreases upto,
{
    if upto == 0 {
        Seq::empty()
    } else {
        let before = lockfile_symbols(file, matches, (upto - 1) as nat);
        let import = file.imports[upto - 1];
        if dependency_of(matches, import.from_module, 0) is Some {
            before + symbols_behind(file, import.local_name)
        } else {
            before
        }
    }
}

/// The trace after dependencies changed: in the first `upto` files, the projects
/// of each file that imports one are marked.
pub open spec fn lockfile_marked(
    workspace: WorkspaceView,
    index: IndexView,
    trace: TraceView,
    matches: Seq<ModuleMatch>,
    upto: nat,
) -> TraceView
    decreases upto,
{
    if upto == 0 {
        trace
    } else {
        let before = lockfile_marked(workspace, index, trace, matches, (upto - 1) as nat);
        let file = workspace.files[upto - 1];
        let causes = lockfile_causes(file, matches, file.imports.len());
        if causes.len() == 0 {
            before
        } else {
            before.marked(index.owners(file.relative_path, false), causes)
        }
    }
}

/// The symbols of the first `upto` files that changed dependencies are traced
/// by.
pub open spec fn all_lockfile_symbols(
    workspace: WorkspaceView,
    matches: Seq<ModuleMatch>,
    upto: nat,
) -> Seq<(usize, Seq<char>)>
    decreases upto,
{
    if upto == 0 {
        Seq::empty()
    } else {
        let file = workspace.files[upto - 1];
        all_lockfile_symbols(workspace, matches, (upto - 1) as nat) + symbols_of(
            (upto - 1) as usize,
            lockfile_symbols(file, matches, file.imports.len()),
        )
    }
}

/// What an analysis waits for, besides the references of its trace.
#[derive(Debug, Clone, PartialEq, Eq)]
pub enum Waiting {
    Nothing,
    /// The references to an asset.
    AssetReferences(String),
    /// The modules that belong to changed dependencies.
    Dependencies,
}

/// What a [`Waiting`] stands for.
#[verifier::ext_equal]
pub enum WaitingView {
    Nothing,
    AssetReferences(Seq<char>),
    Dependencies,
}

impl View for Waiting {
    type V = WaitingView;

    open spec fn view(&self) -> WaitingView {
        match self {
            Waiting::Nothing => WaitingView::Nothing,
            Waiting::AssetReferences(asset) => WaitingView::AssetReferences(asset@),
            Waiting::Dependencies => WaitingView::Dependencies,
        }
    }
}

/// What an [`Analysis`] stands for.
#[verifier::ext_equal]
pub struct AnalysisView {
    pub trace: TraceView,
    /// What is still to be done; the last comes next.
    pub jobs: Seq<JobView>,
    pub waiting: WaitingView,
    pub strategy: LockfileStrategy,
}

impl AnalysisView {
    /// The analysis after a job was done, where nothing is traced.
    pub open spec fn after_job(
        self,
        workspace: WorkspaceView,
        index: IndexView,
        job: JobView,
    ) -> AnalysisView {
        match job {
            JobView::Source { path, lines } => AnalysisView {
                trace: source_marked(workspace, index, self.trace, path, lines),
                jobs: self.jobs + source_jobs(workspace, path, lines),
                ..self
            },
            JobView::Asset { path, lines } => AnalysisView {
                trace: self.trace.marked(index.owners(path, true), file_causes(path, lines)),
                waiting: WaitingView::AssetReferences(path),
                ..self
            },
            JobView::AssetReference { asset, source_file, line } => AnalysisView {
                trace: self.trace.marked(
                    index.owners(source_file, false),
                    seq![
                        CauseView::AssetChange {
                            asset_file: asset,
                            referenced_in: source_file,
                            line,
                        },
                    ],
                ),
                jobs: self.jobs + asset_reference_jobs(workspace, asset, source_file),
                ..self
            },
            JobView::Lockfile => AnalysisView { waiting: WaitingView::Dependencies, ..self },
            JobView::Trace(symbols) => AnalysisView { trace: self.trace.begun(symbols), ..self },
        }
    }

    /// The analysis after a step: the trace goes on, or the next job is done.
    pub open spec fn stepped(self, workspace: WorkspaceView, index: IndexView) -> AnalysisView {
        if self.waiting != WaitingView::Nothing || self.trace.asking is Some {
            self
        } else if !self.trace.is_done() {
            AnalysisView { trace: self.trace.stepped(workspace, index), ..self }
        } else if self.jobs.len() > 0 {
            AnalysisView { jobs: self.jobs.drop_last(), ..self }.after_job(
                workspace,
                index,
                self.jobs.last(),
            )
        } else {
            self
        }
    }

    /// The analysis after the references to an asset came back, where they could
    /// be found.
    pub open spec fn assets_answered(self, references: Option<Seq<AssetReference>>) -> AnalysisView {
        match self.waiting {
            WaitingView::AssetReferences(asset) => AnalysisView {
                waiting: WaitingView::Nothing,
                jobs: match references {
                    Some(found) => self.jobs + found.map_values(
                        |reference: AssetReference|
                            JobView::AssetReference {
                                asset,
                                source_file: reference.source_file@,
                                line: reference.line,
                            },
                    ).reverse(),
                    None => self.jobs,
                },
                ..self
            },
            _ => self,
        }
    }

    /// The analysis after the modules of changed dependencies came back, where
    /// they could be found.
    pub open spec fn dependencies_answered(
        self,
        workspace: WorkspaceView,
        index: IndexView,
        matches: Option<Seq<ModuleMatch>>,
    ) -> AnalysisView {
        match self.waiting {
            WaitingView::Dependencies => match matches {
                Some(found) => AnalysisView {
                    waiting: WaitingView::Nothing,
                    trace: lockfile_marked(
                        workspace,
                        index,
                        self.trace,
                        found,
                        workspace.files.len(),
                    ),
                    jobs: if self.strategy == LockfileStrategy::Full {
                        self.jobs + trace_job(
                            all_lockfile_symbols(workspace, found, workspace.files.len()),
                        )
                    } else {
                        self.jobs
                    },
                    ..self
                },
                None => AnalysisView { waiting: WaitingView::Nothing, ..self },
            },
            _ => self,
        }
    }

    /// Whether nothing is left to be done.
    pub open spec fn is_done(self) -> bool {
        self.waiting == WaitingView::Nothing && self.trace.is_done() && self.jobs.len() == 0
    }
}

/// A run of the algorithm on changed files.
pub struct Analysis {
    state: AffectedState,
    jobs: Vec<Job>,
    waiting: Waiting,
    strategy: LockfileStrategy,
}

impl View for Analysis {
    type V = AnalysisView;

    closed spec fn view(&self) -> AnalysisView {
        AnalysisView {
            trace: self.state@,
            jobs: job_views(self.jobs@),
            waiting: self.waiting@,
            strategy: self.strategy,
        }
    }
}

/// The causes of a changed file whose symbols are not known.
///
/// Record a `DirectChange` cause for each changed line (or a single line-0 cause
/// when no lines are known).
fn direct_change_causes(path: &str, lines: &Vec<usize>) -> (r: Vec<AffectCause>)
    ensures
        cause_views(r@) == file_causes(path@, lines@),
{
    let ghost all = file_causes(path@, lines@);
    let mut r: Vec<AffectCause> = Vec::new();
    if lines.len() == 0 {
        let cause: AffectCause = AffectCause::DirectChange {
            file: path.to_owned(),
            symbol: None,
            line: 0,
        };
        r.push(cause);
        proof {
            assert(cause_views(r@) =~= all);
        }
        return r;
    }
    let mut i: usize = 0;
    proof {
        assert(cause_views(r@) =~= all.take(0));
    }
    while i < lines.len()
        invariant
            lines@.len() > 0,
            all == file_causes(path@, lines@),
            all.len() == lines@.len(),
            i <= lines@.len(),
            cause_views(r@) == all.take(i as int),
        decreases lines@.len() - i,
    {
        let cause: AffectCause = AffectCause::DirectChange {
            file: path.to_owned(),
            symbol: None,
            line: lines[i],
        };
        let ghost before = r@;
        r.push(cause);
        proof {
            assert(all[i as int] == cause@);
            assert(cause_views(r@) =~= cause_views(before).push(cause@));
            assert(all.take(i + 1) =~= all.take(i as int).push(cause@));
        }
        i = i + 1;
    }
    proof {
        assert(all.take(all.len() as int) =~= all);
    }
    r
}

/// Adds the causes of a changed line with the symbols that it belongs to.
fn push_named_causes(r: &mut Vec<AffectCause>, path: &str, line: usize, names: &Vec<String>)
    ensures
        cause_views(final(r)@) == cause_views(old(r)@) + named_causes(path@, line, texts(names@)),
{
    let ghost before = cause_views(r@);
    let ghost all = named_causes(path@, line, texts(names@));
    proof {
        assert(texts(names@).len() == names@.len());
    }
    if names.len() == 0 {
        let ghost current = r@;
        let cause: AffectCause = AffectCause::DirectChange {
            file: path.to_owned(),
            symbol: None,
            line,
        };
        r.push(cause);
        proof {
            assert(cause_views(r@) =~= cause_views(current).push(cause@));
            assert(cause_views(r@) =~= before + all);
        }
        return;
    }
    let mut i: usize = 0;
    proof {
        assert(before + all.take(0) =~= before);
    }
    while i < names.len()
        invariant
            names@.len() > 0,
            texts(names@).len() == names@.len(),
            all == named_causes(path@, line, texts(names@)),
            all.len() == names@.len(),
            i <= names@.len(),
            cause_views(r@) == before + all.take(i as int),
        decreases names@.len() - i,
    {
        let ghost current = r@;
        let cause: AffectCause = AffectCause::DirectChange {
            file: path.to_owned(),
            symbol: Some(names[i].clone()),
            line,
        };
        r.push(cause);
        proof {
            assert(texts(names@)[i as int] == names@[i as int]@);
            assert(all[i as int] == cause@);
            assert(cause_views(r@) =~= cause_views(current).push(cause@));
            assert(all.take(i + 1) =~= all.take(i as int).push(cause@));
            assert(cause_views(r@) =~= before + all.take(i + 1));
        }
        i = i + 1;
    }
    proof {
        assert(all.take(all.len() as int) =~= all);
    }
}

/// Adds the names that a list does not hold yet; `seen` holds the list's names.
fn push_distinct(r: &mut Vec<String>, seen: &mut FxHashSet<String>, names: &Vec<String>)
    requires
        names_in(old(seen)) == texts(old(r)@).to_set(),
    ensures
        texts(final(r)@) == with_all_distinct(texts(old(r)@), texts(names@)),
        names_in(final(seen)) == texts(final(r)@).to_set(),
{
    let ghost before = texts(r@);
    let ghost all = texts(names@);
    let mut i: usize = 0;
    proof {
        assert(with_all_distinct(before, all.take(0)) =~= before);
    }
    while i < names.len()
        invariant
            all == texts(names@),
            i <= names@.len(),
            texts(r@) == with_all_distinct(before, all.take(i as int)),
            names_in(seen) == texts(r@).to_set(),
        decreases names@.len() - i,
    {
        let ghost current = texts(r@);
        let ghost strings = r@;
        let ghost name = names@[i as int]@;
        proof {
            assert(all.take(i + 1).drop_last() =~= all.take(i as int));
            assert(all.take(i + 1).last() == name);
            assert(current.to_set().contains(name) == current.contains(name));
            crate::utils::lemma_set_push(current, name);
        }
        if insert_name(seen, names[i].clone()) {
            r.push(names[i].clone());
            proof {
                assert(texts(r@) =~= texts(strings).push(name));
            }
        } else {
            proof {
                assert(names_in(seen) =~= current.to_set());
            }
        }
        i = i + 1;
    }
    proof {
        assert(all.take(all.len() as int) =~= all);
    }
}

/// The causes of a changed file that was analyzed, and the symbols that its
/// changed lines belong to, each once.
fn change_of_file(file: &AnalyzedFile, path: &str, lines: &Vec<usize>) -> (r: (
    Vec<AffectCause>,
    Vec<String>,
))
    requires
        byte_len(file.file_data.source@) < usize::MAX,
    ensures
        cause_views(r.0@) == analyzed_causes(file@.file_data, path@, lines@),
        texts(r.1@) == changed_symbols(file@.file_data, lines@, lines@.len()),
{
    let mut causes: Vec<AffectCause> = Vec::new();
    let mut symbols: Vec<String> = Vec::new();
    let mut seen: FxHashSet<String> = no_names();
    let mut i: usize = 0;
    proof {
        assert(cause_views(causes@) =~= Seq::<CauseView>::empty());
        assert(texts(symbols@) =~= Seq::<Seq<char>>::empty());
        assert(texts(symbols@).to_set() =~= Set::<Seq<char>>::empty());
    }
    while i < lines.len()
        invariant
            byte_len(file.file_data.source@) < usize::MAX,
            i <= lines@.len(),
            cause_views(causes@) == symbol_causes(file@.file_data, path@, lines@, i as nat),
            texts(symbols@) == changed_symbols(file@.file_data, lines@, i as nat),
            names_in(&seen) == texts(symbols@).to_set(),
        decreases lines@.len() - i,
    {
        let names: Vec<String> = file.file_data.names_on(lines[i], 0);
        push_named_causes(&mut causes, path, lines[i], &names);
        push_distinct(&mut symbols, &mut seen, &names);
        i = i + 1;
    }
    if lines.len() == 0 {
        causes = direct_change_causes(path, lines);
    }
    (causes, symbols)
}

/// The symbols with the given names of a file, behind others.
fn push_symbols(symbols: &mut Vec<(usize, String)>, file: usize, names: &Vec<String>)
    ensures
        symbol_pairs(final(symbols)@) == symbol_pairs(old(symbols)@) + symbols_of(
            file,
            texts(names@),
        ),
{
    let ghost before = symbol_pairs(symbols@);
    let ghost all = symbols_of(file, texts(names@));
    let mut i: usize = 0;
    proof {
        assert(before + all.take(0) =~= before);
    }
    while i < names.len()
        invariant
            all == symbols_of(file, texts(names@)),
            all.len() == names@.len(),
            i <= names@.len(),
            symbol_pairs(symbols@) == before + all.take(i as int),
        decreases names@.len() - i,
    {
        let ghost current = symbols@;
        let symbol: (usize, String) = (file, names[i].clone());
        symbols.push(symbol);
        proof {
            assert(texts(names@)[i as int] == names@[i as int]@);
            assert(all[i as int] == (symbol.0, symbol.1@));
            assert(symbol_pairs(symbols@) =~= symbol_pairs(current).push((symbol.0, symbol.1@)));
            assert(all.take(i + 1) =~= all.take(i as int).push((symbol.0, symbol.1@)));
            assert(symbol_pairs(symbols@) =~= before + all.take(i + 1));
        }
        i = i + 1;
    }
    proof {
        assert(all.take(all.len() as int) =~= all);
    }
}

/// Adds the job to trace symbols, where there are any.
fn push_trace(jobs: &mut Vec<Job>, symbols: Vec<(usize, String)>)
    ensures
        job_views(final(jobs)@) == job_views(old(jobs)@) + trace_job(symbol_pairs(symbols@)),
{
    let ghost before = jobs@;
    proof {
        assert(symbol_pairs(symbols@).len() == symbols@.len());
    }
    if symbols.len() > 0 {
        let job: Job = Job::Trace(symbols);
        jobs.push(job);
        proof {
            assert(job_views(jobs@) =~= job_views(before).push(job@));
            assert(job_views(jobs@) =~= job_views(before) + trace_job(symbol_pairs(symbols@)));
        }
    } else {
        proof {
            assert(job_views(jobs@) =~= job_views(before) + trace_job(symbol_pairs(symbols@)));
        }
    }
}

/// The local name of the first import whose module holds a text.
fn find_import_naming(imports: &Vec<Import>, text: &str) -> (r: Option<String>)
    ensures
        match r {
            Some(name) => import_naming(
                crate::semantic::module_graph::import_views(imports@),
                text@,
                0,
            ) == Some(name@),
            None => import_naming(
                crate::semantic::module_graph::import_views(imports@),
                text@,
                0,
            ) is None,
        },
{
    let ghost views = crate::semantic::module_graph::import_views(imports@);
    let mut i: usize = 0;
    while i < imports.len()
        invariant
            views == crate::semantic::module_graph::import_views(imports@),
            i <= imports@.len(),
            import_naming(views, text@, 0) == import_naming(views, text@, i as int),
        decreases imports@.len() - i,
    {
        proof {
            assert(views[i as int] == imports@[i as int]@);
        }
        if contains_text(imports[i].from_module.as_str(), text) {
            return Some(imports[i].local_name.clone());
        }
        i = i + 1;
    }
    None
}

/// The symbols that a changed import is traced by.
fn find_symbols_behind(file: &AnalyzedFile, local_name: &str) -> (r: Vec<String>)
    requires
        byte_len(file.file_data.source@) < usize::MAX,
    ensures
        texts(r@) == symbols_behind(file@, local_name@),
{
    let exported: Vec<String> = file.exported_symbols_using(local_name);
    proof {
        assert(texts(exported@).len() == exported@.len());
    }
    if exported.len() > 0 {
        return exported;
    }
    let mut r: Vec<String> = Vec::new();
    r.push(local_name.to_owned());
    proof {
        assert(texts(r@) =~= seq![local_name@]);
    }
    r
}

/// Adds the jobs to trace each symbol of a file on its own.
fn push_single_traces(jobs: &mut Vec<Job>, file: usize, names: &Vec<String>)
    ensures
        job_views(final(jobs)@) == job_views(old(jobs)@) + single_traces(file, texts(names@)),
{
    let ghost before = job_views(jobs@);
    let ghost all = single_traces(file, texts(names@));
    let mut i: usize = names.len();
    proof {
        assert(all.len() == names@.len());
        assert(before + all.take(0) =~= before);
    }
    while i > 0
        invariant
            all == single_traces(file, texts(names@)),
            all.len() == names@.len(),
            i <= names@.len(),
            job_views(jobs@) == before + all.take(names@.len() - i),
        decreases i,
    {
        let ghost current = jobs@;
        let mut symbols: Vec<(usize, String)> = Vec::new();
        symbols.push((file, names[i - 1].clone()));
        let job: Job = Job::Trace(symbols);
        proof {
            assert(symbol_pairs(symbols@) =~= seq![(file, names@[i - 1]@)]);
        }
        jobs.push(job);
        proof {
            let at = names@.len() - i;
            assert(texts(names@)[i - 1] == names@[i - 1]@);
            assert(all[at] == job@);
            assert(job_views(jobs@) =~= job_views(current).push(job@));
            assert(all.take(at + 1) =~= all.take(at).push(job@));
            assert(job_views(jobs@) =~= before + all.take(at + 1));
        }
        i = i - 1;
    }
    proof {
        assert(all.take(all.len() as int) =~= all);
    }
}

/// The changed dependency of a module.
fn find_dependency_of<'a>(matches: &'a Vec<ModuleMatch>, module: &str) -> (r: Option<&'a String>)
    ensures
        match r {
            Some(name) => dependency_of(matches@, module@, 0) == Some(name@),
            None => dependency_of(matches@, module@, 0) is None,
        },
{
    let mut i: usize = 0;
    while i < matches.len()
        invariant
            i <= matches@.len(),
            dependency_of(matches@, module@, 0) == dependency_of(matches@, module@, i as int),
        decreases matches@.len() - i,
    {
        if same(matches[i].from_module.as_str(), module) {
            return Some(&matches[i].dependency);
        }
        i = i + 1;
    }
    None
}

/// The causes that a file's imports bring by changed dependencies, and the
/// symbols that they are traced by, where they are to be traced.
fn change_of_imports(file: &AnalyzedFile, matches: &Vec<ModuleMatch>, trace: bool) -> (r: (
    Vec<AffectCause>,
    Vec<String>,
))
    requires
        byte_len(file.file_data.source@) < usize::MAX,
    ensures
        cause_views(r.0@) == lockfile_causes(file@, matches@, file@.imports.len()),
        trace ==> texts(r.1@) == lockfile_symbols(file@, matches@, file@.imports.len()),
{
    let mut causes: Vec<AffectCause> = Vec::new();
    let mut symbols: Vec<String> = Vec::new();
    let mut i: usize = 0;
    proof {
        assert(cause_views(causes@) =~= Seq::<CauseView>::empty());
        assert(texts(symbols@) =~= Seq::<Seq<char>>::empty());
    }
    while i < file.imports.len()
        invariant
            byte_len(file.file_data.source@) < usize::MAX,
            i <= file.imports@.len(),
            cause_views(causes@) == lockfile_causes(file@, matches@, i as nat),
            trace ==> texts(symbols@) == lockfile_symbols(file@, matches@, i as nat),
        decreases file.imports@.len() - i,
    {
        let import: &Import = &file.imports[i];
        proof {
            assert(file@.imports[i as int] == import@);
        }
        if let Some(dependency) = find_dependency_of(matches, import.from_module.as_str()) {
            let cause: AffectCause = AffectCause::LockfileChange {
                dependency: dependency.clone(),
                importing_file: file.relative_path.clone(),
            };
            let ghost before = causes@;
            causes.push(cause);
            proof {
                assert(cause_views(causes@) =~= cause_views(before).push(cause@));
            }
            if trace {
                let mut more: Vec<String> = find_symbols_behind(file, import.local_name.as_str());
                let ghost list = symbols@;
                let ghost added = more@;
                symbols.append(&mut more);
                proof {
                    assert(texts(symbols@) =~= texts(list) + texts(added));
                }
            }
        }
        i = i + 1;
    }
    (causes, symbols)
}

/// What an analysis asks for, or that it goes on or is done.
#[derive(Debug, Clone, PartialEq, Eq)]
pub enum Action {
    /// Nothing: take the next step.
    Continue,
    /// Find the references to a symbol of a file in other files, and hand them to
    /// [`Analysis::references`].
    References { file_path: String, symbol: String },
    /// Find the references to an asset, and hand them to
    /// [`Analysis::asset_references`].
    AssetReferences { asset_path: String },
    /// Find the modules that belong to changed dependencies, and hand them to
    /// [`Analysis::dependencies`].
    Dependencies,
    /// Nothing more: the analysis is done.
    Finish,
}

/// Whether an action is what an analysis needs.
pub open spec fn is_needed(
    workspace: WorkspaceView,
    analysis: AnalysisView,
    action: Action,
) -> bool {
    match action {
        Action::Continue => analysis.waiting == WaitingView::Nothing && analysis.trace.asking
            is None && !analysis.is_done(),
        Action::References { file_path, symbol } => analysis.waiting == WaitingView::Nothing
            && needs(workspace, analysis.trace, Need::References { file_path, symbol }),
        Action::AssetReferences { asset_path } => analysis.waiting
            == WaitingView::AssetReferences(asset_path@),
        Action::Dependencies => analysis.waiting == WaitingView::Dependencies,
        Action::Finish => analysis.is_done(),
    }
}

impl Analysis {
    /// Does a job, where nothing is traced.
    fn perform(&mut self, analyzer: &WorkspaceAnalyzer, project_index: &ProjectIndex, job: Job)
        ensures
            final(self)@ == old(self)@.after_job(analyzer@, project_index@, job@),
    {
        let ghost before = self@;
        match job {
            Job::Source(file) => {
                self.change_source(analyzer, project_index, &file);
            },
            Job::Asset(file) => {
                let owners: Vec<String> = project_index.get_owning_packages_by_path(
                    file.file_path.as_str(),
                );
                let causes: Vec<AffectCause> = direct_change_causes(
                    file.file_path.as_str(),
                    &file.changed_lines,
                );
                self.state.mark(&owners, &causes);
                self.waiting = Waiting::AssetReferences(file.file_path);
            },
            Job::AssetReference { asset, source_file, line } => {
                self.change_reference(analyzer, project_index, asset, source_file.as_str(), line);
            },
            Job::Lockfile => {
                self.waiting = Waiting::Dependencies;
            },
            Job::Trace(symbols) => {
                self.state.begin(&symbols);
            },
        }
    }

    /// Takes in a changed source file.
    fn change_source(
        &mut self,
        analyzer: &WorkspaceAnalyzer,
        project_index: &ProjectIndex,
        file: &ChangedFile,
    )
        ensures
            final(self)@ == old(self)@.after_job(
                analyzer@,
                project_index@,
                JobView::Source { path: file.file_path@, lines: file.changed_lines@ },
            ),
    {
        let ghost before = self@;
        let path: &str = file.file_path.as_str();
        let owners: Vec<String> = project_index.get_owning_packages_by_path(path);
        match analyzer.number_of_file(path) {
            Some(i) => {
                let (causes, names) = change_of_file(
                    analyzer.file(i),
                    path,
                    &file.changed_lines,
                );
                self.state.mark(&owners, &causes);
                let mut symbols: Vec<(usize, String)> = Vec::new();
                proof {
                    assert(symbol_pairs(symbols@) =~= Seq::<(usize, Seq<char>)>::empty());
                }
                push_symbols(&mut symbols, i, &names);
                proof {
                    assert(symbol_pairs(symbols@) =~= symbols_of(i, texts(names@)));
                }
                push_trace(&mut self.jobs, symbols);
            },
            None => {
                let causes: Vec<AffectCause> = direct_change_causes(path, &file.changed_lines);
                self.state.mark(&owners, &causes);
                proof {
                    assert(self@.jobs =~= before.jobs + Seq::<JobView>::empty());
                }
            },
        }
    }

    /// Takes in a reference to a changed asset.
    fn change_reference(
        &mut self,
        analyzer: &WorkspaceAnalyzer,
        project_index: &ProjectIndex,
        asset: String,
        source_file: &str,
        line: usize,
    )
        ensures
            final(self)@ == old(self)@.after_job(
                analyzer@,
                project_index@,
                JobView::AssetReference { asset: asset@, source_file: source_file@, line },
            ),
    {
        let ghost before = self@;
        let packages: Vec<String> = project_index.get_package_names_by_path(source_file);
        let name: String = match file_name(asset.as_str()) {
            Some(name) => name,
            None => String::new(),
        };
        let mut causes: Vec<AffectCause> = Vec::new();
        let cause: AffectCause = AffectCause::AssetChange {
            asset_file: asset,
            referenced_in: source_file.to_owned(),
            line,
        };
        causes.push(cause);
        proof {
            assert(cause_views(causes@) =~= seq![cause@]);
        }
        self.state.mark(&packages, &causes);
        if let Some(i) = analyzer.number_of_file(source_file) {
            let file: &AnalyzedFile = analyzer.file(i);
            if let Some(local_name) = find_import_naming(&file.imports, name.as_str()) {
                let names: Vec<String> = find_symbols_behind(file, local_name.as_str());
                push_single_traces(&mut self.jobs, i, &names);
                return;
            }
        }
        proof {
            assert(self@.jobs =~= before.jobs + Seq::<JobView>::empty());
        }
    }

    /// Takes the next step.
    pub fn step(&mut self, analyzer: &WorkspaceAnalyzer, project_index: &ProjectIndex) -> (action:
        Action)
        ensures
            final(self)@ == old(self)@.stepped(analyzer@, project_index@),
            is_needed(analyzer@, final(self)@, action),
    {
        let ghost before = self@;
        let idle: bool = match &self.waiting {
            Waiting::Nothing => true,
            _ => false,
        };
        proof {
            assert(before.jobs.len() == self.jobs@.len());
            assert(idle == (before.waiting == WaitingView::Nothing));
        }
        if idle {
            if !self.state.is_done() {
                let _need: Need = self.state.process_changed_symbol(analyzer, project_index);
            } else {
                let ghost jobs = self.jobs@;
                if let Some(job) = self.jobs.pop() {
                    proof {
                        assert(job_views(jobs).last() == job@);
                        assert(job_views(self.jobs@) =~= job_views(jobs).drop_last());
                    }
                    self.perform(analyzer, project_index, job);
                }
            }
        }
        self.action(analyzer)
    }

    /// What the analysis needs.
    pub fn action(&self, analyzer: &WorkspaceAnalyzer) -> (action: Action)
        ensures
            is_needed(analyzer@, self@, action),
    {
        proof {
            assert(self@.jobs.len() == self.jobs@.len());
        }
        match &self.waiting {
            Waiting::AssetReferences(asset) => Action::AssetReferences {
                asset_path: asset.clone(),
            },
            Waiting::Dependencies => Action::Dependencies,
            Waiting::Nothing => match self.state.need(analyzer) {
                Need::References { file_path, symbol } => Action::References { file_path, symbol },
                Need::Nothing => Action::Continue,
                Need::Done => if self.jobs.len() > 0 {
                    Action::Continue
                } else {
                    Action::Finish
                },
            },
        }
    }

    /// Takes in the references to a symbol in other files; none where they could
    /// not be found.
    pub fn references(&mut self, analyzer: &WorkspaceAnalyzer, references: Option<Vec<Reference>>)
        ensures
            final(self)@ == (AnalysisView {
                trace: old(self)@.trace.answered(
                    analyzer@,
                    match references {
                        Some(found) => Some(reference_views(found@)),
                        None => None,
                    },
                ),
                ..old(self)@
            }),
    {
        self.state.answer(analyzer, references);
    }

    /// Takes in the references to an asset; none where they could not be found.
    pub fn asset_references(&mut self, references: Option<Vec<AssetReference>>)
        ensures
            final(self)@ == old(self)@.assets_answered(
                match references {
                    Some(found) => Some(found@),
                    None => None,
                },
            ),
    {
        let asset: String = match &self.waiting {
            Waiting::AssetReferences(asset) => asset.clone(),
            _ => {
                return;
            },
        };
        self.waiting = Waiting::Nothing;
        if let Some(found) = references {
            let ghost before = job_views(self.jobs@);
            let ghost all = found@.map_values(
                |reference: AssetReference|
                    JobView::AssetReference {
                        asset: asset@,
                        source_file: reference.source_file@,
                        line: reference.line,
                    },
            ).reverse();
            let ghost list = found@;
            let mut rest: Vec<AssetReference> = found;
            proof {
                assert(before + all.take(0) =~= before);
            }
            while rest.len() > 0
                invariant
                    all == list.map_values(
                        |reference: AssetReference|
                            JobView::AssetReference {
                                asset: asset@,
                                source_file: reference.source_file@,
                                line: reference.line,
                            },
                    ).reverse(),
                    all.len() == list.len(),
                    rest@.len() <= list.len(),
                    rest@ == list.take(rest@.len() as int),
                    self.waiting == Waiting::Nothing,
                    self.state == old(self).state,
                    self.strategy == old(self).strategy,
                    job_views(self.jobs@) == before + all.take(list.len() - rest@.len()),
                decreases rest@.len(),
            {
                let ghost current = self.jobs@;
                let ghost left = rest@;
                if let Some(reference) = rest.pop() {
                    let job: Job = Job::AssetReference {
                        asset: asset.clone(),
                        source_file: reference.source_file,
                        line: reference.line,
                    };
                    self.jobs.push(job);
                    proof {
                        let at = list.len() - left.len();
                        assert(left.last() == list[left.len() - 1]);
                        assert(all[at] == job@);
                        assert(rest@ =~= list.take(rest@.len() as int));
                        assert(job_views(self.jobs@) =~= job_views(current).push(job@));
                        assert(all.take(at + 1) =~= all.take(at).push(job@));
                        assert(job_views(self.jobs@) =~= before + all.take(at + 1));
                    }
                }
            }
            proof {
                assert(all.take(all.len() as int) =~= all);
            }
        }
    }

    /// Takes in the modules that belong to changed dependencies; none where they
    /// could not be found.
    pub fn dependencies(
        &mut self,
        analyzer: &WorkspaceAnalyzer,
        project_index: &ProjectIndex,
        matches: Option<Vec<ModuleMatch>>,
    )
        ensures
            final(self)@ == old(self)@.dependencies_answered(
                analyzer@,
                project_index@,
                match matches {
                    Some(found) => Some(found@),
                    None => None,
                },
            ),
    {
        match &self.waiting {
            Waiting::Dependencies => {},
            _ => {
                return;
            },
        }
        let ghost before = self@;
        self.waiting = Waiting::Nothing;
        let found: Vec<ModuleMatch> = match matches {
            Some(found) => found,
            None => {
                return;
            },
        };
        let full: bool = self.strategy == LockfileStrategy::Full;
        let mut symbols: Vec<(usize, String)> = Vec::new();
        let mut i: usize = 0;
        proof {
            assert(symbol_pairs(symbols@) =~= Seq::<(usize, Seq<char>)>::empty());
        }
        while i < analyzer.file_count()
            invariant
                i <= analyzer@.files.len(),
                full == (before.strategy == LockfileStrategy::Full),
                full ==> symbol_pairs(symbols@) == all_lockfile_symbols(
                    analyzer@,
                    found@,
                    i as nat,
                ),
                self@ == (AnalysisView {
                    waiting: WaitingView::Nothing,
                    trace: lockfile_marked(
                        analyzer@,
                        project_index@,
                        before.trace,
                        found@,
                        i as nat,
                    ),
                    ..before
                }),
            decreases analyzer@.files.len() - i,
        {
            let file: &AnalyzedFile = analyzer.file(i);
            let (causes, names) = change_of_imports(file, &found, full);
            proof {
                assert(cause_views(causes@).len() == causes@.len());
            }
            if causes.len() > 0 {
                let packages: Vec<String> = project_index.get_package_names_by_path(
                    file.relative_path.as_str(),
                );
                self.state.mark(&packages, &causes);
            }
            if full {
                push_symbols(&mut symbols, i, &names);
            }
            i = i + 1;
        }
        if full {
            push_trace(&mut self.jobs, symbols);
        }
    }
}

/// What is known of a change before anything is analyzed.
pub struct Changes {
    /// The changed files, without those that the workspace's inputs leave out.
    pub changed_files: Vec<ChangedFile>,
    /// How many files were changed, before any was left out.
    pub total_changed_files: usize,
    /// The changed files that invalidate the whole workspace.
    pub global_triggers: Vec<GlobalTrigger>,
    /// The name of the lockfile, where a package manager was detected.
    pub lockfile_name: Option<String>,
    /// Whether the lockfile was changed.
    pub lockfile_changed: bool,
}

/// Whether a changed file is the lockfile.
pub open spec fn is_lockfile(path: Seq<char>, lockfile_name: Option<String>) -> bool {
    match lockfile_name {
        Some(name) => path == name@,
        None => false,
    }
}

/// The jobs for the first `upto` changed files that are source files (or, where
/// `source` is false, that are not); the lockfile is none of them.
pub open spec fn file_jobs(
    files: Seq<ChangedFile>,
    lockfile_name: Option<String>,
    source: bool,
    upto: nat,
) -> Seq<JobView>
    decreases upto,
{
    if upto == 0 {
        Seq::empty()
    } else {
        let before = file_jobs(files, lockfile_name, source, (upto - 1) as nat);
        let path = files[upto - 1].file_path@;
        let lines = files[upto - 1].changed_lines@;
        if is_lockfile(path, lockfile_name) || is_source_path(path) != source {
            before
        } else if source {
            before.push(JobView::Source { path, lines })
        } else {
            before.push(JobView::Asset { path, lines })
        }
    }
}

/// What is to be done for a change; the last comes next. Source files come first,
/// then the other files, then the lockfile, where it counts.
pub open spec fn first_jobs(changes: Changes, strategy: LockfileStrategy) -> Seq<JobView> {
    let files = changes.changed_files@;
    let lockfile = if strategy != LockfileStrategy::Off && changes.lockfile_changed {
        seq![JobView::Lockfile]
    } else {
        Seq::empty()
    };
    lockfile + file_jobs(files, changes.lockfile_name, false, files.len()).reverse() + file_jobs(
        files,
        changes.lockfile_name,
        true,
        files.len(),
    ).reverse()
}

/// An analysis before its first step.
pub open spec fn first_view(
    changes: Changes,
    strategy: LockfileStrategy,
    generate_report: bool,
) -> AnalysisView {
    AnalysisView {
        trace: TraceView {
            generate_report,
            affected: Set::empty(),
            causes: Map::empty(),
            spare: Map::empty(),
            visited: Set::empty(),
            roots: Seq::empty(),
            pending: Seq::empty(),
            asking: None,
        },
        jobs: first_jobs(changes, strategy),
        waiting: WaitingView::Nothing,
        strategy,
    }
}

/// How finding affected projects begins.
pub enum Start {
    /// The result is known without an analysis.
    Known(AffectedResult),
    /// The change is to be analyzed.
    Analyze(Analysis),
}

/// Whether finding affected projects begins as it should: nothing is affected
/// where nothing was changed; every project is where a global trigger fired and
/// no report is wanted; in any other case the change is analyzed.
pub open spec fn is_start(
    start: Start,
    config: TrueAffectedConfig,
    changes: Changes,
    generate_report: bool,
) -> bool {
    let nothing = changes.total_changed_files == 0;
    let everything = changes.global_triggers@.len() > 0 && !generate_report;
    match start {
        Start::Known(result) => {
            &&& nothing || everything
            &&& result.report is None
            &&& nothing ==> texts(result.affected_projects@) == Seq::<Seq<char>>::empty()
            &&& !nothing ==> in_order(texts(result.affected_projects@)) && texts(
                result.affected_projects@,
            ).to_multiset() == project_names(config.projects@).to_multiset()
        },
        Start::Analyze(analysis) => {
            &&& !nothing && !everything
            &&& analysis@ == first_view(changes, config.lockfile_strategy, generate_report)
        },
    }
}

/// Main true-affected algorithm implementation
pub fn find_affected(config: &TrueAffectedConfig, changes: &Changes) -> (r: Start)
    ensures
        is_start(r, *config, *changes, false),
{
    find_affected_internal(config, changes, false)
}

/// Main true-affected algorithm implementation with report generation
pub fn find_affected_with_report(config: &TrueAffectedConfig, changes: &Changes) -> (r: Start)
    ensures
        is_start(r, *config, *changes, true),
{
    find_affected_internal(config, changes, true)
}

/// A copy of a changed file.
fn copy_change(file: &ChangedFile) -> (r: ChangedFile)
    ensures
        r.file_path@ == file.file_path@,
        r.changed_lines@ == file.changed_lines@,
{
    let lines: Vec<usize> = file.changed_lines.clone();
    proof {
        assert(lines@ =~= file.changed_lines@);
    }
    ChangedFile { file_path: file.file_path.clone(), changed_lines: lines }
}

/// Whether a changed file is the lockfile.
fn names_lockfile(path: &str, lockfile_name: &Option<String>) -> (r: bool)
    ensures
        r == is_lockfile(path@, *lockfile_name),
{
    match lockfile_name {
        Some(name) => same(path, name.as_str()),
        None => false,
    }
}

/// Adds the jobs for changed files that are source files, or that are not; the
/// first of them comes last.
fn push_file_jobs(
    jobs: &mut Vec<Job>,
    files: &Vec<ChangedFile>,
    lockfile_name: &Option<String>,
    source: bool,
)
    ensures
        job_views(final(jobs)@) == job_views(old(jobs)@) + file_jobs(
            files@,
            *lockfile_name,
            source,
            files@.len(),
        ).reverse(),
{
    let ghost before = job_views(jobs@);
    let ghost all = file_jobs(files@, *lockfile_name, source, files@.len());
    let mut i: usize = files.len();
    proof {
        assert(before + all.skip(all.len() as int).reverse() =~= before);
    }
    while i > 0
        invariant
            i <= files@.len(),
            all == file_jobs(files@, *lockfile_name, source, files@.len()),
            file_jobs(files@, *lockfile_name, source, i as nat).is_prefix_of(all),
            job_views(jobs@) == before + all.skip(
                file_jobs(files@, *lockfile_name, source, i as nat).len() as int,
            ).reverse(),
        decreases i,
    {
        let file: &ChangedFile = &files[i - 1];
        let ghost head = file_jobs(files@, *lockfile_name, source, i as nat);
        let ghost shorter = file_jobs(files@, *lockfile_name, source, (i - 1) as nat);
        let ghost current = jobs@;
        if !names_lockfile(file.file_path.as_str(), lockfile_name) && is_source_file(
            file.file_path.as_str(),
        ) == source {
            let job: Job = if source {
                Job::Source(copy_change(file))
            } else {
                Job::Asset(copy_change(file))
            };
            jobs.push(job);
            proof {
                assert(head == shorter.push(job@));
                assert(head[shorter.len() as int] == job@);
                assert(head == all.subrange(0, head.len() as int));
                assert(all[shorter.len() as int] == job@);
                assert(job_views(jobs@) =~= job_views(current).push(job@));
                assert(all.skip(shorter.len() as int) =~= seq![job@] + all.skip(head.len() as int));
                assert(all.skip(shorter.len() as int).reverse() =~= all.skip(
                    head.len() as int,
                ).reverse().push(job@));
                assert(job_views(jobs@) =~= before + all.skip(shorter.len() as int).reverse());
                assert(shorter =~= all.subrange(0, shorter.len() as int)) by {
                    assert forall|k: int| 0 <= k < shorter.len() implies shorter[k] == all[k] by {
                        assert(head[k] == shorter[k]);
                        assert(all.subrange(0, head.len() as int)[k] == all[k]);
                    }
                }
            }
        } else {
            proof {
                assert(head == shorter);
            }
        }
        i = i - 1;
    }
    proof {
        assert(all.skip(0) =~= all);
    }
}

fn find_affected_internal(config: &TrueAffectedConfig, changes: &Changes, generate_report: bool) -> (r:
    Start)
    ensures
        is_start(r, *config, *changes, generate_report),
{
    if changes.total_changed_files == 0 {
        let none: Vec<String> = Vec::new();
        proof {
            assert(texts(none@) =~= Seq::<Seq<char>>::empty());
        }
        return Start::Known(AffectedResult { affected_projects: none, report: None });
    }
    if changes.global_triggers.len() > 0 && !generate_report {
        let mut names: Vec<String> = list_project_names(&config.projects);
        sort_names(&mut names);
        return Start::Known(AffectedResult { affected_projects: names, report: None });
    }
    let mut jobs: Vec<Job> = Vec::new();
    proof {
        assert(job_views(jobs@) =~= Seq::<JobView>::empty());
    }
    if config.lockfile_strategy != LockfileStrategy::Off && changes.lockfile_changed {
        let job: Job = Job::Lockfile;
        jobs.push(job);
        proof {
            assert(job_views(jobs@) =~= seq![JobView::Lockfile]);
        }
    }
    push_file_jobs(&mut jobs, &changes.changed_files, &changes.lockfile_name, false);
    push_file_jobs(&mut jobs, &changes.changed_files, &changes.lockfile_name, true);
    let analysis: Analysis = Analysis {
        state: AffectedState::new(generate_report),
        jobs,
        waiting: Waiting::Nothing,
        strategy: config.lockfile_strategy,
    };
    Start::Analyze(analysis)
}

impl Analysis {
    /// What the analysis comes to, once it is done.
    pub fn finish(
        self,
        config: &TrueAffectedConfig,
        global_triggers: Vec<GlobalTrigger>,
        run: RunInfo,
    ) -> (r: AffectedResult)
        ensures
            is_outcome(r, self@.trace, config.projects@, global_triggers@, run),
    {
        conclude(self.state, &config.projects, global_triggers, run)
    }
}

} // verus!
