//! What holds of an analysis from its first step to its last.
use crate::affected::{
    all_lockfile_symbols, analyzed_causes, asset_reference_jobs, file_causes, file_jobs,
    first_jobs, first_view, is_lockfile, lockfile_causes, lockfile_marked, source_jobs, trace_job,
    AnalysisView, Changes, JobView, ModuleMatch, WaitingView,
};
use crate::causes::{cause_pairs, info_names, law_causes_are_appended, list_of};
use crate::fx::in_order;
use crate::outcome::{
    global_causes, globally_marked, implicit_marked, implicit_pairs, invalidated, is_outcome,
    pairs_marked, project_names, RunInfo,
};
use crate::semantic::analyzer::{file_number, WorkspaceView};
use crate::text::{
    codes, lemma_precedes_irreflexive, lemma_precedes_total, lemma_precedes_transitive, precedes,
    texts,
};
use crate::trace::{import_causes, spare_causes, TaskView, TraceView};
use crate::types::{
    AffectedResult, AssetReference, CauseView, ChangedFile, GlobalTrigger, LockfileStrategy,
    Project, ReferenceView,
};
use crate::utils::{is_source_path, IndexView};
use vstd::prelude::*;

verus! {

/// Something that happens to an analysis.
pub enum Event {
    /// A step.
    Step,
    /// References in other files came back, or could not be found.
    References(Option<Seq<ReferenceView>>),
    /// References to an asset came back, or could not be found.
    AssetReferences(Option<Seq<AssetReference>>),
    /// The modules of changed dependencies came back, or could not be found.
    Dependencies(Option<Seq<ModuleMatch>>),
}

/// The analysis after an event.
pub open spec fn after(
    workspace: WorkspaceView,
    index: IndexView,
    analysis: AnalysisView,
    event: Event,
) -> AnalysisView {
    match event {
        Event::Step => analysis.stepped(workspace, index),
        Event::References(found) => AnalysisView {
            trace: analysis.trace.answered(workspace, found),
            ..analysis
        },
        Event::AssetReferences(found) => analysis.assets_answered(found),
        Event::Dependencies(found) => analysis.dependencies_answered(workspace, index, found),
    }
}

/// The analysis after the first `upto` of a list of events.
pub open spec fn after_all(
    workspace: WorkspaceView,
    index: IndexView,
    analysis: AnalysisView,
    events: Seq<Event>,
    upto: nat,
) -> AnalysisView
    decreases upto,
{
    if upto == 0 {
        analysis
    } else {
        after(
            workspace,
            index,
            after_all(workspace, index, analysis, events, (upto - 1) as nat),
            events[upto - 1],
        )
    }
}

/// Whether each project's causes have only got others behind them.
pub open spec fn only_appended(
    before: Map<Seq<char>, Seq<CauseView>>,
    after: Map<Seq<char>, Seq<CauseView>>,
) -> bool {
    forall|name: Seq<char>| #[trigger]
        list_of(before, name).is_prefix_of(list_of(after, name))
}

/// Whether a trace has kept what another has affected, and its causes.
pub open spec fn grows(before: TraceView, after: TraceView) -> bool {
    &&& before.affected.subset_of(after.affected)
    &&& only_appended(before.causes, after.causes)
    &&& only_appended(before.spare, after.spare)
}

/// What is kept twice is kept.
proof fn lemma_grows_on(a: TraceView, b: TraceView, c: TraceView)
    requires
        grows(a, b),
        grows(b, c),
    ensures
        grows(a, c),
{
    assert forall|name: Seq<char>| #[trigger]
        list_of(a.causes, name).is_prefix_of(list_of(c.causes, name)) by {
        assert(list_of(a.causes, name).is_prefix_of(list_of(b.causes, name)));
        assert(list_of(b.causes, name).is_prefix_of(list_of(c.causes, name)));
        lemma_prefix_of_prefix(
            list_of(a.causes, name),
            list_of(b.causes, name),
            list_of(c.causes, name),
        );
    }
    assert forall|name: Seq<char>| #[trigger]
        list_of(a.spare, name).is_prefix_of(list_of(c.spare, name)) by {
        assert(list_of(a.spare, name).is_prefix_of(list_of(b.spare, name)));
        assert(list_of(b.spare, name).is_prefix_of(list_of(c.spare, name)));
        lemma_prefix_of_prefix(
            list_of(a.spare, name),
            list_of(b.spare, name),
            list_of(c.spare, name),
        );
    }
}

/// A prefix of a prefix is a prefix.
proof fn lemma_prefix_of_prefix(a: Seq<CauseView>, b: Seq<CauseView>, c: Seq<CauseView>)
    requires
        a.is_prefix_of(b),
        b.is_prefix_of(c),
    ensures
        a.is_prefix_of(c),
{
    assert forall|i: int| 0 <= i < a.len() implies a[i] == c[i] by {
        assert(a[i] == b.subrange(0, a.len() as int)[i]);
        assert(b[i] == c.subrange(0, b.len() as int)[i]);
    }
    assert(a =~= c.subrange(0, a.len() as int));
}

/// A trace has kept what it has.
proof fn lemma_grows_same(a: TraceView, b: TraceView)
    requires
        a.affected == b.affected,
        a.causes == b.causes,
        a.spare == b.spare,
    ensures
        grows(a, b),
{
    assert forall|name: Seq<char>| #[trigger]
        list_of(a.causes, name).is_prefix_of(list_of(b.causes, name)) by {
        let list = list_of(a.causes, name);
        assert(list =~= list.subrange(0, list.len() as int));
    }
    assert forall|name: Seq<char>| #[trigger]
        list_of(a.spare, name).is_prefix_of(list_of(b.spare, name)) by {
        let list = list_of(a.spare, name);
        assert(list =~= list.subrange(0, list.len() as int));
    }
}

/// Marks take nothing back.
proof fn lemma_marked_grows(trace: TraceView, projects: Seq<Seq<char>>, causes: Seq<CauseView>)
    ensures
        grows(trace, trace.marked(projects, causes)),
        grows(trace, trace.spared(projects, causes)),
{
    lemma_grows_same(trace, trace);
    let marked = trace.marked(projects, causes);
    let spared = trace.spared(projects, causes);
    if trace.generate_report {
        assert forall|name: Seq<char>| #[trigger]
            list_of(trace.causes, name).is_prefix_of(list_of(marked.causes, name)) by {
            law_causes_are_appended(trace.causes, projects, causes, name);
        }
        assert forall|name: Seq<char>| #[trigger]
            list_of(trace.spare, name).is_prefix_of(list_of(spared.spare, name)) by {
            law_causes_are_appended(trace.spare, projects, causes, name);
        }
    }
}

/// Marks of changed dependencies take nothing back.
proof fn lemma_lockfile_marks(
    workspace: WorkspaceView,
    index: IndexView,
    trace: TraceView,
    matches: Seq<ModuleMatch>,
    upto: nat,
)
    ensures
        grows(trace, lockfile_marked(workspace, index, trace, matches, upto)),
    decreases upto,
{
    if upto > 0 {
        lemma_lockfile_marks(workspace, index, trace, matches, (upto - 1) as nat);
        let before = lockfile_marked(workspace, index, trace, matches, (upto - 1) as nat);
        let file = workspace.files[upto - 1];
        let causes = lockfile_causes(file, matches, file.imports.len());
        let owners = index.owners(file.relative_path, false);
        lemma_marked_grows(before, owners, causes);
        if causes.len() > 0 {
            lemma_grows_on(trace, before, before.marked(owners, causes));
        }
    } else {
        lemma_grows_same(trace, trace);
    }
}

/// A step of tracing takes nothing back.
proof fn lemma_step_grows(workspace: WorkspaceView, index: IndexView, trace: TraceView)
    ensures
        grows(trace, trace.stepped(workspace, index)),
{
    let next = trace.stepped(workspace, index);
    if trace.pending.len() > 0 {
        if let TaskView::Follow(symbol, reference) = trace.pending.last() {
            let plain = TraceView { pending: next.pending, ..trace };
            let owners = index.owners(reference.file_path, false);
            let causes = import_causes(workspace, index, symbol, reference);
            let marked = plain.marked(owners, causes);
            lemma_grows_same(trace, plain);
            lemma_marked_grows(plain, owners, causes);
            lemma_grows_on(trace, plain, marked);
            lemma_marked_grows(marked, owners, spare_causes(workspace, index, symbol, reference));
            lemma_grows_on(trace, marked, next);
        } else {
            lemma_grows_same(trace, next);
        }
    } else {
        lemma_grows_same(trace, next);
    }
}

/// A job takes nothing back.
proof fn lemma_job_grows(
    workspace: WorkspaceView,
    index: IndexView,
    analysis: AnalysisView,
    job: JobView,
)
    ensures
        grows(analysis.trace, analysis.after_job(workspace, index, job).trace),
{
    let trace = analysis.trace;
    lemma_grows_same(trace, trace);
    match job {
        JobView::Source { path, lines } => {
            let owners = index.owners(path, true);
            match file_number(workspace.files, path, 0) {
                Some(i) => {
                    lemma_marked_grows(
                        trace,
                        owners,
                        analyzed_causes(workspace.files[i].file_data, path, lines),
                    );
                },
                None => {
                    lemma_marked_grows(trace, owners, file_causes(path, lines));
                },
            }
        },
        JobView::Asset { path, lines } => {
            lemma_marked_grows(trace, index.owners(path, true), file_causes(path, lines));
        },
        JobView::AssetReference { asset, source_file, line } => {
            lemma_marked_grows(
                trace,
                index.owners(source_file, false),
                seq![
                    CauseView::AssetChange { asset_file: asset, referenced_in: source_file, line },
                ],
            );
        },
        JobView::Trace(symbols) => {
            lemma_grows_same(trace, trace.begun(symbols));
        },
        JobView::Lockfile => {},
    }
}

/// Nothing that happens to an analysis takes back that a project is affected, or
/// a cause of it: causes only get others behind them.
pub proof fn law_affected_only_grows(
    workspace: WorkspaceView,
    index: IndexView,
    analysis: AnalysisView,
    event: Event,
)
    ensures
        grows(analysis.trace, after(workspace, index, analysis, event).trace),
{
    let trace = analysis.trace;
    match event {
        Event::Step => {
            if analysis.waiting == WaitingView::Nothing && trace.asking is None
                && !trace.is_done() {
                lemma_step_grows(workspace, index, trace);
            } else if analysis.waiting == WaitingView::Nothing && trace.asking is None
                && analysis.jobs.len() > 0 {
                lemma_job_grows(
                    workspace,
                    index,
                    AnalysisView { jobs: analysis.jobs.drop_last(), ..analysis },
                    analysis.jobs.last(),
                );
            } else {
                lemma_grows_same(trace, trace);
            }
        },
        Event::Dependencies(Some(found)) => {
            lemma_lockfile_marks(workspace, index, trace, found, workspace.files.len());
            lemma_grows_same(trace, trace);
        },
        _ => {
            lemma_grows_same(trace, after(workspace, index, analysis, event).trace);
        },
    }
}

/// Whether a project has causes of its own, or causes held ready for it.
pub open spec fn is_listed(
    lists: Map<Seq<char>, Seq<CauseView>>,
    spare: Map<Seq<char>, Seq<CauseView>>,
    name: Seq<char>,
) -> bool {
    list_of(lists, name).len() > 0 || list_of(spare, name).len() > 0
}

/// Whether every project with a cause is affected.
pub open spec fn causes_affect(trace: TraceView) -> bool {
    forall|name: Seq<char>| #[trigger]
        is_listed(trace.causes, trace.spare, name) ==> trace.affected.contains(name)
}

/// Marks keep every project with a cause affected.
proof fn lemma_marked_affects(trace: TraceView, projects: Seq<Seq<char>>, causes: Seq<CauseView>)
    requires
        causes_affect(trace),
    ensures
        causes_affect(trace.marked(projects, causes)),
{
    let marked = trace.marked(projects, causes);
    assert forall|name: Seq<char>| #[trigger]
        is_listed(marked.causes, marked.spare, name) implies marked.affected.contains(name) by {
        law_causes_are_appended(trace.causes, projects, causes, name);
        if projects.contains(name) {
            assert(projects.to_set().contains(name));
        } else {
            assert(is_listed(trace.causes, trace.spare, name));
        }
    }
}

/// Causes held ready for affected projects keep every project with a cause
/// affected.
proof fn lemma_spared_affects(trace: TraceView, projects: Seq<Seq<char>>, causes: Seq<CauseView>)
    requires
        causes_affect(trace),
        projects.to_set().subset_of(trace.affected),
    ensures
        causes_affect(trace.spared(projects, causes)),
{
    let spared = trace.spared(projects, causes);
    assert forall|name: Seq<char>| #[trigger]
        is_listed(spared.causes, spared.spare, name) implies spared.affected.contains(name) by {
        law_causes_are_appended(trace.spare, projects, causes, name);
        if projects.contains(name) {
            assert(projects.to_set().contains(name));
        } else {
            assert(is_listed(trace.causes, trace.spare, name));
        }
    }
}

/// Marks of changed dependencies keep every project with a cause affected.
proof fn lemma_lockfile_affects(
    workspace: WorkspaceView,
    index: IndexView,
    trace: TraceView,
    matches: Seq<ModuleMatch>,
    upto: nat,
)
    requires
        causes_affect(trace),
    ensures
        causes_affect(lockfile_marked(workspace, index, trace, matches, upto)),
    decreases upto,
{
    if upto > 0 {
        lemma_lockfile_affects(workspace, index, trace, matches, (upto - 1) as nat);
        let before = lockfile_marked(workspace, index, trace, matches, (upto - 1) as nat);
        let file = workspace.files[upto - 1];
        let causes = lockfile_causes(file, matches, file.imports.len());
        lemma_marked_affects(before, index.owners(file.relative_path, false), causes);
    }
}

/// What happens to an analysis keeps every project with a cause affected.
pub proof fn law_causes_affect(
    workspace: WorkspaceView,
    index: IndexView,
    analysis: AnalysisView,
    event: Event,
)
    requires
        causes_affect(analysis.trace),
    ensures
        causes_affect(after(workspace, index, analysis, event).trace),
{
    let trace = analysis.trace;
    match event {
        Event::Step => {
            let next = analysis.stepped(workspace, index);
            if analysis.waiting == WaitingView::Nothing && trace.asking is None {
                if !trace.is_done() {
                    if trace.pending.len() > 0 {
                        if let TaskView::Follow(symbol, reference)
                            = trace.pending.last() {
                            let plain = TraceView {
                                pending: next.trace.pending,
                                ..trace
                            };
                            let owners = index.owners(reference.file_path, false);
                            let causes = import_causes(workspace, index, symbol, reference);
                            lemma_marked_affects(plain, owners, causes);
                            lemma_spared_affects(
                                plain.marked(owners, causes),
                                owners,
                                spare_causes(workspace, index, symbol, reference),
                            );
                        }
                    }
                } else if analysis.jobs.len() > 0 {
                    match analysis.jobs.last() {
                        JobView::Source { path, lines } => {
                            lemma_marked_affects(
                                trace,
                                index.owners(path, true),
                                analyzed_causes(
                                    workspace.files[file_number(
                                        workspace.files,
                                        path,
                                        0,
                                    )->0].file_data,
                                    path,
                                    lines,
                                ),
                            );
                            lemma_marked_affects(
                                trace,
                                index.owners(path, true),
                                file_causes(path, lines),
                            );
                        },
                        JobView::Asset { path, lines } => {
                            lemma_marked_affects(
                                trace,
                                index.owners(path, true),
                                file_causes(path, lines),
                            );
                        },
                        JobView::AssetReference { asset, source_file, line } => {
                            lemma_marked_affects(
                                trace,
                                index.owners(source_file, false),
                                seq![
                                    CauseView::AssetChange {
                                        asset_file: asset,
                                        referenced_in: source_file,
                                        line,
                                    },
                                ],
                            );
                        },
                        _ => {},
                    }
                }
            }
        },
        Event::Dependencies(Some(found)) => {
            lemma_lockfile_affects(workspace, index, trace, found, workspace.files.len());
        },
        _ => {},
    }
}

/// Whether the change of a file is accounted for: the projects that own it are
/// affected, or the file is still to be taken in.
pub open spec fn is_accounted_for(
    index: IndexView,
    analysis: AnalysisView,
    path: Seq<char>,
    lines: Seq<usize>,
) -> bool {
    ||| index.owners(path, true).to_set().subset_of(analysis.trace.affected)
    ||| analysis.jobs.contains(JobView::Source { path, lines })
    ||| analysis.jobs.contains(JobView::Asset { path, lines })
}

/// A job below the last stays.
proof fn lemma_job_stays(jobs: Seq<JobView>, more: Seq<JobView>, job: JobView)
    requires
        jobs.len() > 0,
        jobs.contains(job),
        job != jobs.last(),
    ensures
        (jobs.drop_last() + more).contains(job),
        jobs.drop_last().contains(job),
{
    let k = choose|k: int| 0 <= k < jobs.len() && jobs[k] == job;
    assert(jobs.drop_last()[k] == job);
    assert((jobs.drop_last() + more)[k] == job);
}

/// A job stays where jobs are added.
proof fn lemma_job_added(jobs: Seq<JobView>, more: Seq<JobView>, job: JobView)
    requires
        jobs.contains(job),
    ensures
        (jobs + more).contains(job),
{
    let k = choose|k: int| 0 <= k < jobs.len() && jobs[k] == job;
    assert((jobs + more)[k] == job);
}

/// What happens to an analysis forgets no job for a changed file.
proof fn lemma_stays_accounted_for(
    workspace: WorkspaceView,
    index: IndexView,
    analysis: AnalysisView,
    event: Event,
    path: Seq<char>,
    lines: Seq<usize>,
    job: JobView,
)
    requires
        analysis.jobs.contains(job),
        job == (JobView::Source { path, lines }) || job == (JobView::Asset { path, lines }),
    ensures
        is_accounted_for(index, after(workspace, index, analysis, event), path, lines),
{
    let next = after(workspace, index, analysis, event);
    match event {
        Event::Step => {
            if analysis.waiting == WaitingView::Nothing && analysis.trace.asking is None
                && analysis.trace.is_done() {
                let last = analysis.jobs.last();
                if job != last {
                    match last {
                        JobView::Source { path, lines } => {
                            lemma_job_stays(
                                analysis.jobs,
                                source_jobs(workspace, path, lines),
                                job,
                            );
                        },
                        JobView::AssetReference { asset, source_file, line } => {
                            lemma_job_stays(
                                analysis.jobs,
                                asset_reference_jobs(
                                    workspace,
                                    asset,
                                    source_file,
                                ),
                                job,
                            );
                        },
                        _ => {
                            lemma_job_stays(analysis.jobs, Seq::empty(), job);
                        },
                    }
                    assert(next.jobs.contains(job));
                }
            }
        },
        Event::References(_) => {},
        Event::AssetReferences(found) => {
            if let WaitingView::AssetReferences(asset) = analysis.waiting {
                if let Some(references) = found {
                    lemma_job_added(
                        analysis.jobs,
                        references.map_values(
                            |reference: AssetReference|
                                JobView::AssetReference {
                                    asset,
                                    source_file: reference.source_file@,
                                    line: reference.line,
                                },
                        ).reverse(),
                        job,
                    );
                }
            }
        },
        Event::Dependencies(found) => {
            if let Some(matches) = found {
                lemma_job_added(
                    analysis.jobs,
                    trace_job(
                        all_lockfile_symbols(
                            workspace,
                            matches,
                            workspace.files.len(),
                        ),
                    ),
                    job,
                );
            }
        },
    }
}

/// Whatever happens to an analysis, the change of a file stays accounted for.
proof fn lemma_accounted_for(
    workspace: WorkspaceView,
    index: IndexView,
    analysis: AnalysisView,
    events: Seq<Event>,
    upto: nat,
    path: Seq<char>,
    lines: Seq<usize>,
)
    requires
        is_accounted_for(index, analysis, path, lines),
    ensures
        is_accounted_for(
            index,
            after_all(workspace, index, analysis, events, upto),
            path,
            lines,
        ),
    decreases upto,
{
    if upto > 0 {
        lemma_accounted_for(workspace, index, analysis, events, (upto - 1) as nat, path, lines);
        let before = after_all(workspace, index, analysis, events, (upto - 1) as nat);
        let event = events[upto - 1];
        if index.owners(path, true).to_set().subset_of(before.trace.affected) {
            law_affected_only_grows(workspace, index, before, event);
        } else if before.jobs.contains(JobView::Source { path, lines }) {
            lemma_stays_accounted_for(
                workspace,
                index,
                before,
                event,
                path,
                lines,
                JobView::Source { path, lines },
            );
        } else {
            lemma_stays_accounted_for(
                workspace,
                index,
                before,
                event,
                path,
                lines,
                JobView::Asset { path, lines },
            );
        }
    }
}

/// A changed file is among the jobs, unless it is the lockfile.
proof fn lemma_file_jobs(
    files: Seq<ChangedFile>,
    lockfile_name: Option<String>,
    upto: nat,
    i: int,
)
    requires
        0 <= i < upto <= files.len(),
        !is_lockfile(files[i].file_path@, lockfile_name),
    ensures
        ({
            let path = files[i].file_path@;
            let lines = files[i].changed_lines@;
            if is_source_path(path) {
                file_jobs(files, lockfile_name, true, upto).contains(
                    JobView::Source { path, lines },
                )
            } else {
                file_jobs(files, lockfile_name, false, upto).contains(
                    JobView::Asset { path, lines },
                )
            }
        }),
    decreases upto,
{
    let path = files[i].file_path@;
    let lines = files[i].changed_lines@;
    let source = is_source_path(path);
    let job = if source {
        JobView::Source { path, lines }
    } else {
        JobView::Asset { path, lines }
    };
    let before = file_jobs(files, lockfile_name, source, (upto - 1) as nat);
    let all = file_jobs(files, lockfile_name, source, upto);
    if i < upto - 1 {
        lemma_file_jobs(files, lockfile_name, (upto - 1) as nat, i);
        let k = choose|k: int| 0 <= k < before.len() && before[k] == job;
        assert(all[k] == job);
    } else {
        assert(all == before.push(job));
        assert(all[before.len() as int] == job);
    }
}

/// A directly changed file counts for every project that owns it, whatever its
/// tsconfig leaves out: when an analysis is done, these projects are affected.
/// The lockfile does not count for its owners.
pub proof fn law_direct_changes_count(
    workspace: WorkspaceView,
    index: IndexView,
    changes: Changes,
    strategy: LockfileStrategy,
    generate_report: bool,
    events: Seq<Event>,
    i: int,
    name: Seq<char>,
)
    requires
        0 <= i < changes.changed_files@.len(),
        !is_lockfile(changes.changed_files@[i].file_path@, changes.lockfile_name),
        index.owners(changes.changed_files@[i].file_path@, true).contains(name),
        after_all(
            workspace,
            index,
            first_view(changes, strategy, generate_report),
            events,
            events.len(),
        ).is_done(),
    ensures
        after_all(
            workspace,
            index,
            first_view(changes, strategy, generate_report),
            events,
            events.len(),
        ).trace.affected.contains(name),
{
    let files = changes.changed_files@;
    let path = files[i].file_path@;
    let lines = files[i].changed_lines@;
    let first = first_view(changes, strategy, generate_report);
    let source = is_source_path(path);
    let job = if source {
        JobView::Source { path, lines }
    } else {
        JobView::Asset { path, lines }
    };
    lemma_file_jobs(files, changes.lockfile_name, files.len(), i);
    let assets = file_jobs(files, changes.lockfile_name, false, files.len());
    let sources = file_jobs(files, changes.lockfile_name, true, files.len());
    let list = if source {
        sources
    } else {
        assets
    };
    let k = choose|k: int| 0 <= k < list.len() && list[k] == job;
    assert(list.reverse()[list.len() - 1 - k] == job);
    let jobs = first_jobs(changes, strategy);
    let ahead = jobs.len() - assets.len() - sources.len();
    if source {
        assert(jobs[ahead + assets.len() + (list.len() - 1 - k)] == job);
    } else {
        assert(jobs[ahead + (list.len() - 1 - k)] == job);
    }
    assert(first.jobs.contains(job));
    assert(is_accounted_for(index, first, path, lines));
    lemma_accounted_for(workspace, index, first, events, events.len(), path, lines);
    let end = after_all(workspace, index, first, events, events.len());
    assert(index.owners(path, true).to_set().contains(name));
    assert forall|other: JobView| !end.jobs.contains(other) by {}
}

/// Marking pairs takes nothing back.
proof fn lemma_pairs_grow(trace: TraceView, pairs: Seq<(Seq<char>, Seq<char>)>, upto: nat)
    ensures
        trace.affected.subset_of(pairs_marked(trace, pairs, upto).affected),
        causes_affect(trace) ==> causes_affect(pairs_marked(trace, pairs, upto)),
    decreases upto,
{
    if upto > 0 {
        lemma_pairs_grow(trace, pairs, (upto - 1) as nat);
        if causes_affect(trace) {
            lemma_marked_affects(
                pairs_marked(trace, pairs, (upto - 1) as nat),
                seq![pairs[upto - 1].0],
                seq![CauseView::ImplicitDependency { depends_on: pairs[upto - 1].1 }],
            );
        }
    }
}

/// A result names every project that the analysis found affected, and every
/// project at all where a global trigger fired.
pub proof fn law_result_names_affected(
    result: AffectedResult,
    trace: TraceView,
    projects: Seq<Project>,
    triggers: Seq<GlobalTrigger>,
    run: RunInfo,
    name: Seq<char>,
)
    requires
        is_outcome(result, trace, projects, triggers, run),
    ensures
        trace.affected.contains(name) ==> texts(result.affected_projects@).contains(name),
        triggers.len() > 0 && project_names(projects).contains(name) ==> texts(
            result.affected_projects@,
        ).contains(name),
{
    let pairs = implicit_pairs(projects, trace.affected, projects.len());
    lemma_pairs_grow(trace, pairs, pairs.len());
    let semantic = implicit_marked(trace, projects);
    let all = globally_marked(semantic, projects, triggers);
    let listed = texts(result.affected_projects@);
    assert(listed.to_set().contains(name) == listed.contains(name));
    if triggers.len() > 0 && project_names(projects).contains(name) {
        assert(project_names(projects).to_set().contains(name));
    }
}

/// A report explains only projects that the result names.
pub proof fn law_report_explains_affected(
    result: AffectedResult,
    trace: TraceView,
    projects: Seq<Project>,
    triggers: Seq<GlobalTrigger>,
    run: RunInfo,
    name: Seq<char>,
)
    requires
        is_outcome(result, trace, projects, triggers, run),
        causes_affect(trace),
        result.report is Some,
        info_names(result.report->0.projects@).contains(name),
    ensures
        texts(result.affected_projects@).contains(name),
{
    let pairs = implicit_pairs(projects, trace.affected, projects.len());
    lemma_pairs_grow(trace, pairs, pairs.len());
    let semantic = implicit_marked(trace, projects);
    let all = globally_marked(semantic, projects, triggers);
    lemma_marked_affects(
        semantic,
        invalidated(projects, triggers),
        global_causes(triggers),
    );
    let pairs = cause_pairs(all.explanations());
    let cause = choose|cause: CauseView| #[trigger] pairs.contains((name, cause));
    assert(list_of(all.explanations(), name).contains(cause));
    assert(is_listed(all.causes, all.spare, name));
    assert(all.affected.contains(name));
    let listed = texts(result.affected_projects@);
    assert(listed.to_set().contains(name) == listed.contains(name));
}

/// Whether two traces differ in the recorded causes alone.
pub open spec fn agree(a: TraceView, b: TraceView) -> bool {
    a == (TraceView {
        generate_report: a.generate_report,
        causes: a.causes,
        spare: a.spare,
        ..b
    })
}

/// Whether two analyses differ in the recorded causes alone.
pub open spec fn differ_in_report(a: AnalysisView, b: AnalysisView) -> bool {
    &&& agree(a.trace, b.trace)
    &&& a.jobs == b.jobs
    &&& a.waiting == b.waiting
    &&& a.strategy == b.strategy
}

/// Marks of changed dependencies are the same whether causes are recorded or not.
proof fn lemma_lockfile_agrees(
    workspace: WorkspaceView,
    index: IndexView,
    a: TraceView,
    b: TraceView,
    matches: Seq<ModuleMatch>,
    upto: nat,
)
    requires
        agree(a, b),
    ensures
        agree(
            lockfile_marked(workspace, index, a, matches, upto),
            lockfile_marked(workspace, index, b, matches, upto),
        ),
    decreases upto,
{
    if upto > 0 {
        lemma_lockfile_agrees(workspace, index, a, b, matches, (upto - 1) as nat);
    }
}

/// A report is no part of the analysis: whatever happens, an analysis that
/// records causes and one that does not go the same way and mark the same
/// projects.
pub proof fn law_report_changes_nothing(
    workspace: WorkspaceView,
    index: IndexView,
    a: AnalysisView,
    b: AnalysisView,
    event: Event,
)
    requires
        differ_in_report(a, b),
    ensures
        differ_in_report(after(workspace, index, a, event), after(workspace, index, b, event)),
{
    if let Event::Dependencies(Some(found)) = event {
        lemma_lockfile_agrees(workspace, index, a.trace, b.trace, found, workspace.files.len());
    }
}

/// Implicit dependencies mark the same projects whether causes are recorded or
/// not.
proof fn lemma_pairs_agree(
    a: TraceView,
    b: TraceView,
    pairs: Seq<(Seq<char>, Seq<char>)>,
    upto: nat,
)
    requires
        agree(a, b),
    ensures
        agree(pairs_marked(a, pairs, upto), pairs_marked(b, pairs, upto)),
    decreases upto,
{
    if upto > 0 {
        lemma_pairs_agree(a, b, pairs, (upto - 1) as nat);
    }
}

/// Whether keys stand in order, each once.
pub open spec fn is_increasing(keys: Seq<Seq<int>>) -> bool {
    forall|i: int, j: int|
        #![trigger keys[i], keys[j]]
        0 <= i < j < keys.len() ==> precedes(keys[i], keys[j])
}

/// Keys can be put in order in one way only.
proof fn lemma_increasing_is_determined(a: Seq<Seq<int>>, b: Seq<Seq<int>>)
    requires
        is_increasing(a),
        is_increasing(b),
        forall|key: Seq<int>| #[trigger] a.contains(key) == b.contains(key),
    ensures
        a == b,
    decreases a.len(),
{
    if a.len() == 0 {
        if b.len() > 0 {
            assert(b.contains(b[0]));
            assert(a.contains(b[0]));
        }
        assert(a =~= b);
    } else {
        assert(a.contains(a[0]));
        assert(b.contains(a[0]));
        let j = choose|j: int| 0 <= j < b.len() && b[j] == a[0];
        assert(b.contains(b[0]));
        assert(a.contains(b[0]));
        let i = choose|i: int| 0 <= i < a.len() && a[i] == b[0];
        if a[0] != b[0] {
            assert(precedes(a[0], a[i]));
            assert(precedes(b[0], b[j]));
            lemma_precedes_transitive(a[0], b[0], a[0]);
            lemma_precedes_irreflexive(a[0]);
        }
        let x = a.skip(1);
        let y = b.skip(1);
        assert forall|key: Seq<int>| #[trigger] x.contains(key) == y.contains(key) by {
            if x.contains(key) {
                let k = choose|k: int| 0 <= k < x.len() && x[k] == key;
                assert(a[k + 1] == key);
                assert(precedes(a[0], a[k + 1]));
                assert(a.contains(key));
                assert(b.contains(key));
                let l = choose|l: int| 0 <= l < b.len() && b[l] == key;
                lemma_precedes_irreflexive(a[0]);
                assert(y[l - 1] == key);
            }
            if y.contains(key) {
                let k = choose|k: int| 0 <= k < y.len() && y[k] == key;
                assert(b[k + 1] == key);
                assert(precedes(b[0], b[k + 1]));
                assert(b.contains(key));
                assert(a.contains(key));
                let l = choose|l: int| 0 <= l < a.len() && a[l] == key;
                lemma_precedes_irreflexive(b[0]);
                assert(x[l - 1] == key);
            }
        }
        lemma_increasing_is_determined(x, y);
        assert(a =~= seq![a[0]] + x);
        assert(b =~= seq![b[0]] + y);
    }
}

/// The code points of names in order, each once, are in order.
proof fn lemma_names_increase(names: Seq<Seq<char>>)
    requires
        in_order(names),
        names.no_duplicates(),
    ensures
        is_increasing(names.map_values(|name: Seq<char>| codes(name))),
{
    let keys = names.map_values(|name: Seq<char>| codes(name));
    assert forall|i: int, j: int|
        #![trigger keys[i], keys[j]]
        0 <= i < j < keys.len() implies precedes(keys[i], keys[j]) by {
        assert(names[i] != names[j]);
        lemma_codes_differ(names[i], names[j]);
        lemma_precedes_total(keys[i], keys[j]);
    }
}

/// Different texts have different code points.
proof fn lemma_codes_differ(a: Seq<char>, b: Seq<char>)
    ensures
        codes(a) == codes(b) ==> a == b,
{
    if codes(a) == codes(b) {
        assert(a.len() == codes(a).len());
        assert(b.len() == codes(b).len());
        assert forall|i: int| 0 <= i < a.len() implies a[i] == b[i] by {
            assert(codes(a)[i] == a[i] as int);
            assert(codes(b)[i] == b[i] as int);
        }
        assert(a =~= b);
    }
}

/// Names can be put in order in one way only: two lists that hold the same
/// names, each once and in order, are the same list.
pub proof fn law_order_is_determined(a: Seq<Seq<char>>, b: Seq<Seq<char>>)
    requires
        in_order(a),
        a.no_duplicates(),
        in_order(b),
        b.no_duplicates(),
        a.to_set() == b.to_set(),
    ensures
        a == b,
{
    let x = a.map_values(|name: Seq<char>| codes(name));
    let y = b.map_values(|name: Seq<char>| codes(name));
    lemma_names_increase(a);
    lemma_names_increase(b);
    assert forall|key: Seq<int>| #[trigger] x.contains(key) == y.contains(key) by {
        if x.contains(key) {
            let k = choose|k: int| 0 <= k < x.len() && x[k] == key;
            assert(a.to_set().contains(a[k]));
            let l = choose|l: int| 0 <= l < b.len() && b[l] == a[k];
            assert(y[l] == key);
        }
        if y.contains(key) {
            let k = choose|k: int| 0 <= k < y.len() && y[k] == key;
            assert(b.to_set().contains(b[k]));
            let l = choose|l: int| 0 <= l < a.len() && a[l] == b[k];
            assert(x[l] == key);
        }
    }
    lemma_increasing_is_determined(x, y);
    assert(a.len() == x.len());
    assert(b.len() == y.len());
    assert forall|i: int| 0 <= i < a.len() implies a[i] == b[i] by {
        assert(x[i] == y[i]);
        lemma_codes_differ(a[i], b[i]);
    }
    assert(a =~= b);
}

/// The result names the same projects, in the same order, with and without a
/// report.
pub proof fn law_report_names_the_same(
    with: AffectedResult,
    without: AffectedResult,
    a: TraceView,
    b: TraceView,
    projects: Seq<Project>,
    triggers: Seq<GlobalTrigger>,
    run: RunInfo,
)
    requires
        agree(a, b),
        is_outcome(with, a, projects, triggers, run),
        is_outcome(without, b, projects, triggers, run),
    ensures
        texts(with.affected_projects@) == texts(without.affected_projects@),
{
    let pairs = implicit_pairs(projects, a.affected, projects.len());
    lemma_pairs_agree(a, b, pairs, pairs.len());
    law_order_is_determined(
        texts(with.affected_projects@),
        texts(without.affected_projects@),
    );
}

} // verus!
