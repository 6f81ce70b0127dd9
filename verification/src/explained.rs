//! What a report explains: the projects that the result names, and no others.
use crate::affected::{
    analyzed_causes, file_causes, first_view, lockfile_causes, lockfile_marked, named_causes,
    symbol_causes, AnalysisView, Changes, JobView, ModuleMatch, WaitingView,
};
use crate::causes::{
    cause_pairs, has_cause, info_names, law_causes_are_appended, lemma_has_causes, list_of,
};
use crate::laws::{
    after, after_all, causes_affect, is_listed, law_causes_affect, law_order_is_determined,
    law_report_explains_affected, Event,
};
use crate::outcome::{
    global_causes, globally_marked, implicit_marked, implicit_pairs, invalidated, is_outcome,
    pairs_marked, RunInfo,
};
use crate::semantic::analyzer::{file_number, names_on_line, FileView, WorkspaceView};
use crate::text::texts;
use crate::trace::{import_causes, spare_causes, TaskView, TraceView};
use crate::types::{
    AffectedResult, CauseView, GlobalTrigger, LockfileStrategy, Project, ReferenceView,
};
use crate::utils::IndexView;
use vstd::prelude::*;

verus! {

/// Whether every affected project has a cause.
pub open spec fn is_explained(trace: TraceView) -> bool {
    forall|name: Seq<char>| #[trigger]
        trace.affected.contains(name) ==> is_listed(trace.causes, trace.spare, name)
}

/// What is listed stays so with marks, and so with causes held ready.
proof fn lemma_stays_listed(
    trace: TraceView,
    projects: Seq<Seq<char>>,
    causes: Seq<CauseView>,
    name: Seq<char>,
)
    requires
        is_listed(trace.causes, trace.spare, name) || (trace.generate_report && projects.contains(
            name,
        ) && causes.len() > 0),
    ensures
        is_listed(
            trace.marked(projects, causes).causes,
            trace.marked(projects, causes).spare,
            name,
        ),
        is_listed(
            trace.spared(projects, causes).causes,
            trace.spared(projects, causes).spare,
            name,
        ),
{
    law_causes_are_appended(trace.causes, projects, causes, name);
    law_causes_are_appended(trace.spare, projects, causes, name);
    if projects.contains(name) && causes.len() > 0 {
        lemma_has_causes(trace.causes, projects, causes, name);
        lemma_has_causes(trace.spare, projects, causes, name);
    }
}

/// Marks with a cause keep every affected project explained.
proof fn lemma_marks_explain(trace: TraceView, projects: Seq<Seq<char>>, causes: Seq<CauseView>)
    requires
        trace.generate_report,
        is_explained(trace),
        causes.len() > 0 || projects.len() == 0,
    ensures
        is_explained(trace.marked(projects, causes)),
{
    let marked = trace.marked(projects, causes);
    assert forall|name: Seq<char>| #[trigger] marked.affected.contains(name) implies is_listed(
        marked.causes,
        marked.spare,
        name,
    ) by {
        if !trace.affected.contains(name) {
            assert(projects.to_set().contains(name));
        }
        lemma_stays_listed(trace, projects, causes, name);
    }
}

/// A reference keeps every affected project explained.
proof fn lemma_reference_explains(
    workspace: WorkspaceView,
    index: IndexView,
    trace: TraceView,
    symbol: (usize, Seq<char>),
    reference: ReferenceView,
)
    requires
        trace.generate_report,
        is_explained(trace),
    ensures
        is_explained(trace.reference_marked(workspace, index, symbol, reference)),
{
    let owners = index.owners(reference.file_path, false);
    let causes = import_causes(workspace, index, symbol, reference);
    let spare = spare_causes(workspace, index, symbol, reference);
    let marked = trace.marked(owners, causes);
    let next = trace.reference_marked(workspace, index, symbol, reference);
    assert(causes.len() > 0 || spare.len() > 0);
    assert forall|name: Seq<char>| #[trigger] next.affected.contains(name) implies is_listed(
        next.causes,
        next.spare,
        name,
    ) by {
        if trace.affected.contains(name) {
            assert(is_listed(trace.causes, trace.spare, name));
        } else {
            assert(owners.to_set().contains(name));
        }
        if is_listed(trace.causes, trace.spare, name) || causes.len() > 0 {
            lemma_stays_listed(trace, owners, causes, name);
        }
        lemma_stays_listed(marked, owners, spare, name);
    }
}

/// Each changed line brings a cause.
proof fn lemma_lines_bring_causes(file: FileView, path: Seq<char>, lines: Seq<usize>, upto: nat)
    ensures
        symbol_causes(file, path, lines, upto).len() >= upto,
    decreases upto,
{
    if upto > 0 {
        lemma_lines_bring_causes(file, path, lines, (upto - 1) as nat);
        let line = lines[upto - 1];
        assert(named_causes(path, line, names_on_line(file, line as nat, 0)).len() >= 1);
    }
}

/// Marks of changed dependencies keep every affected project explained.
proof fn lemma_lockfile_explains(
    workspace: WorkspaceView,
    index: IndexView,
    trace: TraceView,
    matches: Seq<ModuleMatch>,
    upto: nat,
)
    requires
        trace.generate_report,
        is_explained(trace),
    ensures
        lockfile_marked(workspace, index, trace, matches, upto).generate_report,
        is_explained(lockfile_marked(workspace, index, trace, matches, upto)),
    decreases upto,
{
    if upto > 0 {
        lemma_lockfile_explains(workspace, index, trace, matches, (upto - 1) as nat);
        let before = lockfile_marked(workspace, index, trace, matches, (upto - 1) as nat);
        let file = workspace.files[upto - 1];
        let causes = lockfile_causes(file, matches, file.imports.len());
        if causes.len() > 0 {
            lemma_marks_explain(before, index.owners(file.relative_path, false), causes);
        }
    }
}

/// Where an analysis records causes, every affected project has a cause, whatever
/// happens.
pub proof fn law_affected_is_explained(
    workspace: WorkspaceView,
    index: IndexView,
    analysis: AnalysisView,
    event: Event,
)
    requires
        analysis.trace.generate_report,
        is_explained(analysis.trace),
    ensures
        after(workspace, index, analysis, event).trace.generate_report,
        is_explained(after(workspace, index, analysis, event).trace),
{
    let trace = analysis.trace;
    match event {
        Event::Step => {
            if analysis.waiting == WaitingView::Nothing && trace.asking is None {
                if !trace.is_done() {
                    lemma_step_explains(workspace, index, analysis);
                } else if analysis.jobs.len() > 0 {
                    lemma_job_explains(workspace, index, analysis);
                }
            }
        },
        Event::Dependencies(Some(found)) => {
            lemma_lockfile_explains(workspace, index, trace, found, workspace.files.len());
        },
        _ => {},
    }
}

/// A step of tracing keeps every affected project explained.
proof fn lemma_step_explains(workspace: WorkspaceView, index: IndexView, analysis: AnalysisView)
    requires
        analysis.trace.generate_report,
        is_explained(analysis.trace),
    ensures
        analysis.trace.stepped(workspace, index).generate_report,
        is_explained(analysis.trace.stepped(workspace, index)),
{
    let trace = analysis.trace;
    if trace.pending.len() > 0 {
        if let TaskView::Follow(symbol, reference) = trace.pending.last() {
            let plain = TraceView { pending: trace.stepped(workspace, index).pending, ..trace };
            lemma_reference_explains(workspace, index, plain, symbol, reference);
        }
    }
}

/// A job keeps every affected project explained.
proof fn lemma_job_explains(workspace: WorkspaceView, index: IndexView, analysis: AnalysisView)
    requires
        analysis.trace.generate_report,
        analysis.trace.is_done(),
        analysis.jobs.len() > 0,
        is_explained(analysis.trace),
    ensures
        ({
            let next = AnalysisView { jobs: analysis.jobs.drop_last(), ..analysis }.after_job(
                workspace,
                index,
                analysis.jobs.last(),
            );
            next.trace.generate_report && is_explained(next.trace)
        }),
{
    let trace = analysis.trace;
    match analysis.jobs.last() {
        JobView::Source { path, lines } => {
            match file_number(workspace.files, path, 0) {
                Some(i) => {
                    let file = workspace.files[i].file_data;
                    lemma_lines_bring_causes(file, path, lines, lines.len());
                    lemma_marks_explain(
                        trace,
                        index.owners(path, true),
                        analyzed_causes(file, path, lines),
                    );
                },
                None => {
                    lemma_marks_explain(
                        trace,
                        index.owners(path, true),
                        file_causes(path, lines),
                    );
                },
            }
        },
        JobView::Asset { path, lines } => {
            lemma_marks_explain(trace, index.owners(path, true), file_causes(path, lines));
        },
        JobView::AssetReference { asset, source_file, line } => {
            lemma_marks_explain(
                trace,
                index.owners(source_file, false),
                seq![
                    CauseView::AssetChange {
                        asset_file: asset,
                        referenced_in: source_file,
                        line,
                    },
                ],
            );
        },
        _ => {},
    }
}

/// Implicit dependencies keep every affected project explained.
proof fn lemma_pairs_explain(trace: TraceView, pairs: Seq<(Seq<char>, Seq<char>)>, upto: nat)
    requires
        trace.generate_report,
        is_explained(trace),
    ensures
        pairs_marked(trace, pairs, upto).generate_report,
        is_explained(pairs_marked(trace, pairs, upto)),
    decreases upto,
{
    if upto > 0 {
        lemma_pairs_explain(trace, pairs, (upto - 1) as nat);
        lemma_marks_explain(
            pairs_marked(trace, pairs, (upto - 1) as nat),
            seq![pairs[upto - 1].0],
            seq![CauseView::ImplicitDependency { depends_on: pairs[upto - 1].1 }],
        );
    }
}

/// Whatever happens to an analysis that records causes, every affected project
/// has a cause, and every project with a cause is affected.
pub proof fn law_every_run_is_explained(
    workspace: WorkspaceView,
    index: IndexView,
    changes: Changes,
    strategy: LockfileStrategy,
    events: Seq<Event>,
    upto: nat,
)
    ensures
        ({
            let trace = after_all(
                workspace,
                index,
                first_view(changes, strategy, true),
                events,
                upto,
            ).trace;
            trace.generate_report && is_explained(trace) && causes_affect(trace)
        }),
    decreases upto,
{
    if upto > 0 {
        law_every_run_is_explained(
            workspace,
            index,
            changes,
            strategy,
            events,
            (upto - 1) as nat,
        );
        let before = after_all(
            workspace,
            index,
            first_view(changes, strategy, true),
            events,
            (upto - 1) as nat,
        );
        law_affected_is_explained(workspace, index, before, events[upto - 1]);
        law_causes_affect(workspace, index, before, events[upto - 1]);
    }
}

/// A report holds information about each project that the result names, in the
/// order of the result, and about no other: whatever happened in the analysis.
pub proof fn law_report_explains_all(
    result: AffectedResult,
    workspace: WorkspaceView,
    index: IndexView,
    changes: Changes,
    strategy: LockfileStrategy,
    events: Seq<Event>,
    projects: Seq<Project>,
    triggers: Seq<GlobalTrigger>,
    run: RunInfo,
)
    requires
        is_outcome(
            result,
            after_all(
                workspace,
                index,
                first_view(changes, strategy, true),
                events,
                events.len(),
            ).trace,
            projects,
            triggers,
            run,
        ),
    ensures
        result.report is Some,
        info_names(result.report->0.projects@) == texts(result.affected_projects@),
{
    let trace = after_all(
        workspace,
        index,
        first_view(changes, strategy, true),
        events,
        events.len(),
    ).trace;
    law_every_run_is_explained(workspace, index, changes, strategy, events, events.len());
    let pairs = implicit_pairs(projects, trace.affected, projects.len());
    lemma_pairs_explain(trace, pairs, pairs.len());
    let semantic = implicit_marked(trace, projects);
    lemma_marks_explain(semantic, invalidated(projects, triggers), global_causes(triggers));
    let all = globally_marked(semantic, projects, triggers);
    let listed = texts(result.affected_projects@);
    let explained = info_names(result.report->0.projects@);
    assert forall|name: Seq<char>| explained.to_set().contains(name) == listed.to_set().contains(
        name,
    ) by {
        if explained.contains(name) {
            law_report_explains_affected(result, trace, projects, triggers, run, name);
        }
        if listed.contains(name) {
            assert(listed.to_set().contains(name));
            assert(all.affected.contains(name));
            assert(is_listed(all.causes, all.spare, name));
            let list = list_of(all.explanations(), name);
            assert(list.contains(list[0]));
            assert(cause_pairs(all.explanations()).contains((name, list[0])));
            assert(has_cause(cause_pairs(all.explanations()), name));
        }
    }
    assert(explained.to_set() =~= listed.to_set());
    law_order_is_determined(explained, listed);
}

} // verus!
