//! Which names a result can hold: those of the workspace's projects.
use crate::affected::{
    first_view, is_start, lockfile_causes, lockfile_marked, AnalysisView, Changes, JobView,
    ModuleMatch, Start, WaitingView,
};
use crate::laws::{after, after_all, law_order_is_determined, law_result_names_affected, Event};
use crate::outcome::{
    depends_implicitly, globally_marked, implicit_marked, invalidated, is_outcome,
    law_implicit_dependencies, project_names, some_depends, RunInfo,
};
use crate::semantic::analyzer::WorkspaceView;
use crate::text::texts;
use crate::trace::{TaskView, TraceView};
use crate::types::{
    AffectedResult, CauseView, GlobalTrigger, LockfileStrategy, Project, TrueAffectedConfig,
};
use crate::utils::{
    below_own_root, below_source_root, index_of, law_ownership, roots_hold, sources_hold,
    IndexView, TsconfigExcludes,
};
use vstd::prelude::*;

verus! {

/// Whether every affected name is the name of a project.
pub open spec fn names_projects(trace: TraceView, projects: Seq<Project>) -> bool {
    forall|name: Seq<char>| #[trigger]
        trace.affected.contains(name) ==> project_names(projects).contains(name)
}

/// Whether an index finds no owners but projects.
pub open spec fn finds_projects(index: IndexView, projects: Seq<Project>) -> bool {
    forall|path: Seq<char>, skip: bool, name: Seq<char>| #[trigger]
        index.owners(path, skip).contains(name) ==> project_names(projects).contains(name)
}

/// The index of some projects finds no owners but these projects.
proof fn lemma_index_finds_projects(
    projects: Seq<Project>,
    cwd: Seq<char>,
    excludes: Seq<Option<TsconfigExcludes>>,
)
    requires
        excludes.len() == projects.len(),
    ensures
        finds_projects(index_of(projects, cwd, excludes), projects),
{
    let index = index_of(projects, cwd, excludes);
    assert forall|path: Seq<char>, skip: bool, name: Seq<char>| #[trigger]
        index.owners(path, skip).contains(name) implies project_names(projects).contains(name) by {
        law_ownership(projects, cwd, excludes, path, name);
        assert(sources_hold(projects, cwd, path, name) || roots_hold(projects, cwd, path, name));
        let i = if sources_hold(projects, cwd, path, name) {
            choose|i: int|
                0 <= i < projects.len() && (#[trigger] projects[i]).name@ == name
                    && below_source_root(projects[i], cwd, path)
        } else {
            choose|i: int|
                0 <= i < projects.len() && (#[trigger] projects[i]).name@ == name
                    && below_own_root(projects[i], cwd, path)
        };
        assert(project_names(projects)[i] == name);
    }
}

/// Marks of owners name no others than projects.
proof fn lemma_marks_name_projects(
    index: IndexView,
    trace: TraceView,
    projects: Seq<Project>,
    path: Seq<char>,
    skip: bool,
    causes: Seq<CauseView>,
)
    requires
        finds_projects(index, projects),
        names_projects(trace, projects),
    ensures
        names_projects(trace.marked(index.owners(path, skip), causes), projects),
{
    let marked = trace.marked(index.owners(path, skip), causes);
    assert forall|name: Seq<char>| #[trigger] marked.affected.contains(name) implies project_names(
        projects,
    ).contains(name) by {
        if !trace.affected.contains(name) {
            assert(index.owners(path, skip).to_set().contains(name));
            assert(index.owners(path, skip).contains(name));
        }
    }
}

/// Marks of changed dependencies name no others than projects.
proof fn lemma_lockfile_names_projects(
    workspace: WorkspaceView,
    index: IndexView,
    trace: TraceView,
    projects: Seq<Project>,
    matches: Seq<ModuleMatch>,
    upto: nat,
)
    requires
        finds_projects(index, projects),
        names_projects(trace, projects),
    ensures
        names_projects(lockfile_marked(workspace, index, trace, matches, upto), projects),
    decreases upto,
{
    if upto > 0 {
        lemma_lockfile_names_projects(
            workspace,
            index,
            trace,
            projects,
            matches,
            (upto - 1) as nat,
        );
        let file = workspace.files[upto - 1];
        lemma_marks_name_projects(
            index,
            lockfile_marked(workspace, index, trace, matches, (upto - 1) as nat),
            projects,
            file.relative_path,
            false,
            lockfile_causes(file, matches, file.imports.len()),
        );
    }
}

/// What happens to an analysis marks no others than projects.
proof fn lemma_event_names_projects(
    workspace: WorkspaceView,
    index: IndexView,
    projects: Seq<Project>,
    analysis: AnalysisView,
    event: Event,
)
    requires
        finds_projects(index, projects),
        names_projects(analysis.trace, projects),
    ensures
        names_projects(after(workspace, index, analysis, event).trace, projects),
{
    let trace = analysis.trace;
    let next = after(workspace, index, analysis, event).trace;
    match event {
        Event::Step => {
            if analysis.waiting == WaitingView::Nothing && trace.asking is None {
                if !trace.is_done() {
                    if trace.pending.len() > 0 {
                        if let TaskView::Follow(symbol, reference) = trace.pending.last() {
                            lemma_marks_name_projects(
                                index,
                                trace,
                                projects,
                                reference.file_path,
                                false,
                                Seq::empty(),
                            );
                            assert(next.affected == trace.marked(
                                index.owners(reference.file_path, false),
                                Seq::empty(),
                            ).affected);
                        }
                    }
                } else if analysis.jobs.len() > 0 {
                    lemma_job_names_projects(workspace, index, projects, analysis);
                }
            }
        },
        Event::Dependencies(Some(found)) => {
            lemma_lockfile_names_projects(
                workspace,
                index,
                trace,
                projects,
                found,
                workspace.files.len(),
            );
        },
        _ => {},
    }
}

/// A job marks no others than projects.
proof fn lemma_job_names_projects(
    workspace: WorkspaceView,
    index: IndexView,
    projects: Seq<Project>,
    analysis: AnalysisView,
)
    requires
        analysis.jobs.len() > 0,
        finds_projects(index, projects),
        names_projects(analysis.trace, projects),
    ensures
        names_projects(
            AnalysisView { jobs: analysis.jobs.drop_last(), ..analysis }.after_job(
                workspace,
                index,
                analysis.jobs.last(),
            ).trace,
            projects,
        ),
{
    let trace = analysis.trace;
    let next = AnalysisView { jobs: analysis.jobs.drop_last(), ..analysis }.after_job(
        workspace,
        index,
        analysis.jobs.last(),
    ).trace;
    let none = Seq::<CauseView>::empty();
    match analysis.jobs.last() {
        JobView::Source { path, lines } => {
            lemma_marks_name_projects(index, trace, projects, path, true, none);
            assert(next.affected == trace.marked(index.owners(path, true), none).affected);
        },
        JobView::Asset { path, lines } => {
            lemma_marks_name_projects(index, trace, projects, path, true, none);
            assert(next.affected == trace.marked(index.owners(path, true), none).affected);
        },
        JobView::AssetReference { asset, source_file, line } => {
            lemma_marks_name_projects(index, trace, projects, source_file, false, none);
            assert(next.affected == trace.marked(index.owners(source_file, false), none).affected);
        },
        _ => {},
    }
}

/// Every name that an analysis marks is the name of a project, whatever happens,
/// where it goes by the index of the projects.
pub proof fn law_affected_are_projects(
    workspace: WorkspaceView,
    projects: Seq<Project>,
    cwd: Seq<char>,
    excludes: Seq<Option<TsconfigExcludes>>,
    changes: Changes,
    strategy: LockfileStrategy,
    generate_report: bool,
    events: Seq<Event>,
    upto: nat,
)
    requires
        excludes.len() == projects.len(),
    ensures
        names_projects(
            after_all(
                workspace,
                index_of(projects, cwd, excludes),
                first_view(changes, strategy, generate_report),
                events,
                upto,
            ).trace,
            projects,
        ),
    decreases upto,
{
    let index = index_of(projects, cwd, excludes);
    let first = first_view(changes, strategy, generate_report);
    if upto > 0 {
        law_affected_are_projects(
            workspace,
            projects,
            cwd,
            excludes,
            changes,
            strategy,
            generate_report,
            events,
            (upto - 1) as nat,
        );
        lemma_index_finds_projects(projects, cwd, excludes);
        lemma_event_names_projects(
            workspace,
            index,
            projects,
            after_all(workspace, index, first, events, (upto - 1) as nat),
            events[upto - 1],
        );
    }
}

/// A result names projects alone, where the trace marked projects alone.
pub proof fn law_result_names_projects(
    result: AffectedResult,
    trace: TraceView,
    projects: Seq<Project>,
    triggers: Seq<GlobalTrigger>,
    run: RunInfo,
    name: Seq<char>,
)
    requires
        is_outcome(result, trace, projects, triggers, run),
        names_projects(trace, projects),
        texts(result.affected_projects@).contains(name),
    ensures
        project_names(projects).contains(name),
{
    let semantic = implicit_marked(trace, projects);
    let all = globally_marked(semantic, projects, triggers);
    assert(texts(result.affected_projects@).to_set().contains(name));
    assert(all.affected.contains(name));
    if semantic.affected.contains(name) {
        law_implicit_dependencies(trace, projects, name, name);
        if !trace.affected.contains(name) {
            let d = choose|d: Seq<char>|
                trace.affected.contains(d) && #[trigger] some_depends(projects, name, d);
            let i = choose|i: int|
                0 <= i < projects.len() && (#[trigger] projects[i]).name@ == name
                    && depends_implicitly(projects[i], d);
            assert(project_names(projects)[i] == name);
        }
    } else {
        assert(invalidated(projects, triggers).to_set().contains(name));
    }
}

/// Under a global trigger, too, a report changes nothing: the run with a report
/// names the projects that the run without one names at once, which are all. Where
/// no two projects share a name, the two lists are the same.
pub proof fn law_trigger_names_the_same(
    with: AffectedResult,
    without: AffectedResult,
    config: TrueAffectedConfig,
    changes: Changes,
    trace: TraceView,
    run: RunInfo,
)
    requires
        changes.total_changed_files > 0,
        changes.global_triggers@.len() > 0,
        is_start(Start::Known(without), config, changes, false),
        names_projects(trace, config.projects@),
        is_outcome(with, trace, config.projects@, changes.global_triggers@, run),
    ensures
        texts(with.affected_projects@).to_set() == texts(without.affected_projects@).to_set(),
        texts(with.affected_projects@).to_set() == project_names(config.projects@).to_set(),
        project_names(config.projects@).no_duplicates() ==> texts(with.affected_projects@)
            == texts(without.affected_projects@),
{
    let projects = config.projects@;
    let triggers = changes.global_triggers@;
    let names = project_names(projects);
    let a = texts(with.affected_projects@);
    let b = texts(without.affected_projects@);
    names.to_multiset_ensures();
    b.to_multiset_ensures();
    assert forall|name: Seq<char>| a.to_set().contains(name) == names.to_set().contains(name) by {
        if a.contains(name) {
            law_result_names_projects(with, trace, projects, triggers, run, name);
        }
        law_result_names_affected(with, trace, projects, triggers, run, name);
    }
    assert(a.to_set() =~= names.to_set());
    assert forall|name: Seq<char>| b.to_set().contains(name) == names.to_set().contains(name) by {
        assert(b.contains(name) <==> b.to_multiset().count(name) > 0);
        assert(names.contains(name) <==> names.to_multiset().count(name) > 0);
    }
    assert(b.to_set() =~= names.to_set());
    if names.no_duplicates() {
        names.lemma_multiset_has_no_duplicates();
        b.lemma_multiset_has_no_duplicates_conv();
        law_order_is_determined(a, b);
    }
}

} // verus!
