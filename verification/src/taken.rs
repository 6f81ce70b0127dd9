//! The steps that an analysis takes, one by one, and what a report makes of them.
use crate::affected::{is_needed, Action, AnalysisView, JobView, WaitingView};
use crate::causes::{
    cause_key, explanations, has_key_of, info_names, is_sorted_form, list_of,
};
use crate::outcome::{globally_marked, implicit_marked, is_outcome, RunInfo};
use crate::semantic::analyzer::WorkspaceView;
use crate::semantic::exports_map::{candidate_paths, target_path, target_paths, EntryView};
use crate::text::{codes, precedes};
use crate::told::{kind_of, law_cause_order, parts_before, says_the_same};
use crate::trace::{export_targets, local_targets, reference_targets, TaskView, TraceView};
use crate::types::{
    cause_views, small, spells, strategy_name, AffectedResult, CauseView, GlobalTrigger,
    LockfileStrategy, Project, ReferenceView,
};
use crate::lists::{lemma_joined, lemma_pushed};
use crate::utils::IndexView;
use vstd::prelude::*;

verus! {

/// A symbol is visited once. On the first visit its references in other files are to
/// be asked for, after every declaration that holds a reference to it in its own file
/// has been visited, in order.
pub proof fn law_visit(
    workspace: WorkspaceView,
    index: IndexView,
    trace: TraceView,
    symbol: (usize, Seq<char>),
)
    requires
        trace.pending.len() > 0,
        trace.pending.last() == TaskView::Visit(symbol),
    ensures
        ({
            let after = trace.stepped(workspace, index);
            let names = local_targets(workspace, symbol);
            let rest = trace.pending.len() - 1;
            let n = after.pending.len() as int;
            &&& after.affected == trace.affected && after.causes == trace.causes && after.spare
                == trace.spare && after.roots == trace.roots && after.asking == trace.asking
            &&& forall|k: int| 0 <= k < rest ==> after.pending[k] == #[trigger] trace.pending[k]
            &&& after.visited.contains(symbol)
            &&& forall|other: (usize, Seq<char>)|
                other != symbol ==> #[trigger] after.visited.contains(other)
                    == trace.visited.contains(other)
            &&& trace.visited.contains(symbol) ==> n == rest
            &&& !trace.visited.contains(symbol) ==> n == rest + 1 + names.len()
                && after.pending[rest] == TaskView::Ask(symbol) && forall|k: int|
                0 <= k < names.len() ==> after.pending[n - 1 - k] == TaskView::Visit(
                    (symbol.0, #[trigger] names[k]),
                )
        }),
{
}

/// Asking for references takes the question off the list and changes nothing else.
pub proof fn law_ask(
    workspace: WorkspaceView,
    index: IndexView,
    trace: TraceView,
    symbol: (usize, Seq<char>),
)
    requires
        trace.pending.len() > 0,
        trace.pending.last() == TaskView::Ask(symbol),
    ensures
        ({
            let after = trace.stepped(workspace, index);
            &&& after.asking == Some(symbol)
            &&& after.pending == trace.pending.drop_last()
            &&& after.affected == trace.affected && after.causes == trace.causes && after.spare
                == trace.spare && after.roots == trace.roots && after.visited == trace.visited
        }),
{
}

/// Every reference in another file is followed, in order. Where there is none, the
/// exports that use the symbol are visited instead.
pub proof fn law_references_answered(
    workspace: WorkspaceView,
    trace: TraceView,
    symbol: (usize, Seq<char>),
    found: Seq<ReferenceView>,
)
    requires
        trace.asking == Some(symbol),
    ensures
        ({
            let after = trace.answered(workspace, Some(found));
            let names = export_targets(workspace, symbol);
            let rest = trace.pending.len() as int;
            let n = after.pending.len() as int;
            &&& after.asking is None
            &&& after.affected == trace.affected && after.causes == trace.causes && after.spare
                == trace.spare && after.roots == trace.roots && after.visited == trace.visited
            &&& forall|k: int| 0 <= k < rest ==> after.pending[k] == #[trigger] trace.pending[k]
            &&& found.len() > 0 ==> n == rest + found.len() && forall|k: int|
                0 <= k < found.len() ==> after.pending[n - 1 - k] == TaskView::Follow(
                    symbol,
                    #[trigger] found[k],
                )
            &&& found.len() == 0 ==> n == rest + names.len() && forall|k: int|
                0 <= k < names.len() ==> after.pending[n - 1 - k] == TaskView::Visit(
                    (symbol.0, #[trigger] names[k]),
                )
        }),
{
}

/// A reference that is followed leads to visits of everything that it is followed to,
/// in order, and keeps what is still to be done.
pub proof fn law_follow(
    workspace: WorkspaceView,
    index: IndexView,
    trace: TraceView,
    symbol: (usize, Seq<char>),
    reference: ReferenceView,
)
    requires
        trace.pending.len() > 0,
        trace.pending.last() == TaskView::Follow(symbol, reference),
    ensures
        ({
            let after = trace.stepped(workspace, index);
            let marked = trace.reference_marked(workspace, index, symbol, reference);
            let targets = reference_targets(workspace, reference);
            let rest = trace.pending.len() - 1;
            let n = after.pending.len() as int;
            &&& after.affected == marked.affected && after.causes == marked.causes && after.spare
                == marked.spare
            &&& after.roots == trace.roots && after.visited == trace.visited && after.asking
                == trace.asking
            &&& forall|k: int| 0 <= k < rest ==> after.pending[k] == #[trigger] trace.pending[k]
            &&& n == rest + targets.len()
            &&& forall|k: int|
                0 <= k < targets.len() ==> after.pending[n - 1 - k] == TaskView::Visit(
                    #[trigger] targets[k],
                )
        }),
{
}

/// A trace begins without anything visited and takes its roots in order, each when the
/// one before is done. What one root has visited, the next does not visit again.
pub proof fn law_roots(
    workspace: WorkspaceView,
    index: IndexView,
    trace: TraceView,
    symbols: Seq<(usize, Seq<char>)>,
)
    ensures
        ({
            let begun = trace.begun(symbols);
            &&& forall|n: (usize, Seq<char>)| !#[trigger] begun.visited.contains(n)
            &&& begun.pending.len() == 0 && begun.asking is None
            &&& begun.roots.len() == symbols.len()
            &&& forall|k: int|
                0 <= k < symbols.len() ==> begun.roots[symbols.len() - 1 - k]
                    == #[trigger] symbols[k]
            &&& begun.affected == trace.affected && begun.causes == trace.causes && begun.spare
                == trace.spare
        }),
        trace.pending.len() == 0 && trace.roots.len() > 0 ==> ({
            let after = trace.stepped(workspace, index);
            &&& after.pending.len() == 1
            &&& after.pending[0] == TaskView::Visit(trace.roots.last())
            &&& after.roots == trace.roots.drop_last()
            &&& after.visited == trace.visited
            &&& after.affected == trace.affected && after.causes == trace.causes && after.spare
                == trace.spare
        }),
{
}

/// An analysis waits for what it has asked, then goes on with the trace at hand, and
/// takes the next job, the last of the list, only when that trace is done.
pub proof fn law_next_job(workspace: WorkspaceView, index: IndexView, analysis: AnalysisView)
    ensures
        analysis.waiting != WaitingView::Nothing || analysis.trace.asking is Some
            ==> analysis.stepped(workspace, index) == analysis,
        analysis.waiting == WaitingView::Nothing && analysis.trace.asking is None && (
        analysis.trace.pending.len() > 0 || analysis.trace.roots.len() > 0) ==> ({
            let after = analysis.stepped(workspace, index);
            &&& after.jobs == analysis.jobs
            &&& after.trace == analysis.trace.stepped(workspace, index)
            &&& after.waiting == WaitingView::Nothing
        }),
        analysis.waiting == WaitingView::Nothing && analysis.trace.is_done() && analysis.jobs.len()
            > 0 ==> analysis.stepped(workspace, index) == (AnalysisView {
            jobs: analysis.jobs.drop_last(),
            ..analysis
        }).after_job(workspace, index, analysis.jobs.last()),
{
}

/// Symbols are traced, and the lockfile asked about, without marking anything at once.
pub proof fn law_other_jobs(
    workspace: WorkspaceView,
    index: IndexView,
    analysis: AnalysisView,
    symbols: Seq<(usize, Seq<char>)>,
)
    ensures
        ({
            let tracing = analysis.after_job(workspace, index, JobView::Trace(symbols));
            let asking = analysis.after_job(workspace, index, JobView::Lockfile);
            &&& tracing.trace == analysis.trace.begun(symbols)
            &&& tracing.jobs == analysis.jobs && tracing.waiting == analysis.waiting
            &&& asking.trace == analysis.trace && asking.jobs == analysis.jobs
            &&& asking.waiting == WaitingView::Dependencies
        }),
{
}

/// What is asked for is what the analysis waits for: the references to the symbol at
/// hand, under the path of its file; those to the asset at hand; or the changed
/// dependencies. The analysis is finished only where nothing is left.
pub proof fn law_what_is_asked(workspace: WorkspaceView, analysis: AnalysisView, action: Action)
    requires
        is_needed(workspace, analysis, action),
    ensures
        match action {
            Action::References { file_path, symbol } => analysis.trace.asking matches Some(asked)
                && asked.1 == symbol@ && (asked.0 < workspace.files.len() ==> file_path@
                == workspace.files[asked.0 as int].relative_path),
            Action::AssetReferences { asset_path } => analysis.waiting
                == WaitingView::AssetReferences(asset_path@),
            Action::Dependencies => analysis.waiting == WaitingView::Dependencies,
            Action::Finish => analysis.jobs.len() == 0 && analysis.trace.roots.len() == 0
                && analysis.trace.pending.len() == 0 && analysis.trace.asking is None
                && analysis.waiting == WaitingView::Nothing,
            Action::Continue => analysis.trace.asking is None && analysis.waiting
                == WaitingView::Nothing && (analysis.jobs.len() > 0 || analysis.trace.roots.len()
                > 0 || analysis.trace.pending.len() > 0),
        },
{
}

/// What a report tells of a project: the causes that were recorded for it, or those
/// held ready where there are none. It tells each once, leaves none out, and adds none;
/// the causes stand by their kinds, and within a kind by the first part that differs.
pub proof fn law_report(
    result: AffectedResult,
    trace: TraceView,
    projects: Seq<Project>,
    triggers: Seq<GlobalTrigger>,
    run: RunInfo,
    k: int,
    cause: CauseView,
    a: int,
    b: int,
)
    requires
        is_outcome(result, trace, projects, triggers, run),
        trace.generate_report,
        0 <= k < result.report->0.projects@.len(),
    ensures
        ({
            let info = result.report->0.projects@[k];
            let all = globally_marked(implicit_marked(trace, projects), projects, triggers);
            let recorded = list_of(all.causes, info.name@);
            let told = if recorded.len() > 0 {
                recorded
            } else {
                list_of(all.spare, info.name@)
            };
            let list = cause_views(info.causes@);
            &&& told.len() > 0
            &&& list.contains(cause) ==> told.contains(cause)
            &&& told.contains(cause) ==> exists|i: int|
                0 <= i < list.len() && says_the_same(#[trigger] list[i], cause)
            &&& 0 <= a < b < list.len() ==> !says_the_same(list[a], list[b]) && (kind_of(list[a])
                < kind_of(list[b]) || parts_before(list[a], list[b]))
        }),
{
    let infos = result.report->0.projects@;
    let info = infos[k];
    let all = globally_marked(implicit_marked(trace, projects), projects, triggers);
    let pairs = crate::causes::cause_pairs(all.explanations());
    let recorded = list_of(all.causes, info.name@);
    let told = if recorded.len() > 0 {
        recorded
    } else {
        list_of(all.spare, info.name@)
    };
    let list = cause_views(info.causes@);
    assert(list_of(all.explanations(), info.name@) =~= told);
    assert(info_names(infos)[k] == info.name@);
    assert(info_names(infos).contains(info.name@));
    let some = choose|c: CauseView| #[trigger] pairs.contains((info.name@, c));
    assert(told.contains(some));
    assert(pairs.contains((info.name@, cause)) == told.contains(cause));
    if list.contains(cause) {
        let i = choose|i: int| 0 <= i < list.len() && list[i] == cause;
        assert(pairs.contains((info.name@, list[i])));
    }
    if told.contains(cause) {
        assert(has_key_of(list, cause));
        let i = choose|i: int|
            0 <= i < list.len() && cause_key(#[trigger] list[i]) == cause_key(cause);
        law_cause_order(list[i], cause);
        assert(says_the_same(list[i], cause));
    }
    if 0 <= a < b < list.len() {
        law_cause_order(list[a], list[b]);
        crate::text::lemma_precedes_irreflexive(cause_key(list[a]));
    }
}

/// A project is in a report exactly where causes were recorded for it or held ready,
/// and the projects stand in the order of their names, each once.
pub proof fn law_reported_projects(
    result: AffectedResult,
    trace: TraceView,
    projects: Seq<Project>,
    triggers: Seq<GlobalTrigger>,
    run: RunInfo,
    name: Seq<char>,
    a: int,
    b: int,
)
    requires
        is_outcome(result, trace, projects, triggers, run),
        trace.generate_report,
    ensures
        ({
            let infos = result.report->0.projects@;
            let all = globally_marked(implicit_marked(trace, projects), projects, triggers);
            &&& (exists|k: int| 0 <= k < infos.len() && (#[trigger] infos[k]).name@ == name) == (
            list_of(all.causes, name).len() > 0 || list_of(all.spare, name).len() > 0)
            &&& 0 <= a < b < infos.len() ==> precedes(codes(infos[a].name@), codes(infos[b].name@))
        }),
{
    let infos = result.report->0.projects@;
    let names = info_names(infos);
    let all = globally_marked(implicit_marked(trace, projects), projects, triggers);
    let pairs = crate::causes::cause_pairs(all.explanations());
    let told = list_of(all.explanations(), name);
    let known = list_of(all.causes, name).len() > 0 || list_of(all.spare, name).len() > 0;
    assert(known == (told.len() > 0));
    assert(names.contains(name) == known) by {
        if told.len() > 0 {
            assert(told.contains(told[0]));
            assert(pairs.contains((name, told[0])));
        }
        if names.contains(name) {
            let some = choose|c: CauseView| #[trigger] pairs.contains((name, c));
            assert(told.contains(some));
        }
    }
    if names.contains(name) {
        let k = choose|k: int| 0 <= k < names.len() && names[k] == name;
        assert(infos[k].name@ == name);
    }
    if exists|k: int| 0 <= k < infos.len() && (#[trigger] infos[k]).name@ == name {
        let k = choose|k: int| 0 <= k < infos.len() && (#[trigger] infos[k]).name@ == name;
        assert(names[k] == name);
    }
    if 0 <= a < b < infos.len() {
        assert(names[a] == infos[a].name@);
        assert(names[b] == infos[b].name@);
        assert(names[a] != names[b]);
        if codes(names[a]) == codes(names[b]) {
            assert(names[a] =~= names[b]) by {
                assert(codes(names[a]).len() == codes(names[b]).len());
                assert forall|i: int| 0 <= i < names[a].len() implies names[a][i]
                    == names[b][i] by {
                    assert(codes(names[a])[i] == codes(names[b])[i]);
                }
            }
        }
        crate::text::lemma_precedes_total(codes(names[a]), codes(names[b]));
    }
}

/// Whether a character is a given one, or its capital letter.
pub open spec fn is_in_any_case(c: char, letter: char) -> bool {
    c == letter || ('A' <= c <= 'Z' && c as int + 32 == letter as int)
}

/// A text is a name in whatever case exactly where it has the name's letters, each
/// small or capital.
pub proof fn law_spells(text: Seq<char>, name: Seq<char>)
    requires
        forall|i: int| 0 <= i < name.len() ==> !('A' <= #[trigger] name[i] <= 'Z'),
    ensures
        spells(text, name) == (text.len() == name.len() && forall|i: int|
            0 <= i < name.len() ==> is_in_any_case(text[i], #[trigger] name[i])),
{
    let lowered = text.map_values(|c: char| small(c));
    assert forall|i: int| 0 <= i < text.len() && i < name.len() implies (lowered[i] == name[i])
        == is_in_any_case(text[i], #[trigger] name[i]) by {
        lemma_small(text[i], name[i]);
    }
    if text.len() == name.len() && (forall|i: int|
        0 <= i < name.len() ==> is_in_any_case(text[i], #[trigger] name[i])) {
        assert(lowered =~= name);
    }
    if lowered == name {
        assert(text.len() == name.len());
        assert forall|i: int| 0 <= i < name.len() implies is_in_any_case(
            text[i],
            #[trigger] name[i],
        ) by {
            assert(lowered[i] == name[i]);
        }
    }
}

/// The small letter of a character is the letter that it is a case of.
proof fn lemma_small(c: char, letter: char)
    requires
        !('A' <= letter <= 'Z'),
    ensures
        (small(c) == letter) == is_in_any_case(c, letter),
{
}

/// The names of the strategies.
pub proof fn law_strategy_names()
    ensures
        strategy_name(LockfileStrategy::Off) == seq!['n', 'o', 'n', 'e'],
        strategy_name(LockfileStrategy::Direct) == seq!['d', 'i', 'r', 'e', 'c', 't'],
        strategy_name(LockfileStrategy::Full) == seq!['f', 'u', 'l', 'l'],
{
    reveal_strlit("none");
    reveal_strlit("direct");
    reveal_strlit("full");
    assert("none"@ =~= seq!['n', 'o', 'n', 'e']);
    assert("direct"@ =~= seq!['d', 'i', 'r', 'e', 'c', 't']);
    assert("full"@ =~= seq!['f', 'u', 'l', 'l']);
}

/// The paths of the first targets.
proof fn lemma_target_paths(
    root: Seq<char>,
    targets: Seq<Seq<char>>,
    upto: nat,
    path: Seq<char>,
)
    requires
        upto <= targets.len(),
    ensures
        target_paths(root, targets, upto).contains(path) == exists|t: int|
            0 <= t < upto && target_path(root, #[trigger] targets[t]) == Some(path),
    decreases upto,
{
    if upto > 0 {
        lemma_target_paths(root, targets, (upto - 1) as nat, path);
        if let Some(last) = target_path(root, targets[upto - 1]) {
            lemma_pushed(target_paths(root, targets, (upto - 1) as nat), last, path);
        }
    }
}

/// The paths that are looked for are those that some target of some entry leads to.
pub proof fn law_candidates(root: Seq<char>, entries: Seq<EntryView>, upto: nat, path: Seq<char>)
    requires
        upto <= entries.len(),
    ensures
        candidate_paths(root, entries, upto).contains(path) == exists|e: int, t: int|
            0 <= e < upto && 0 <= t < entries[e].targets.len() && target_path(
                root,
                #[trigger] entries[e].targets[t],
            ) == Some(path),
    decreases upto,
{
    if upto > 0 {
        let last = entries[upto - 1];
        law_candidates(root, entries, (upto - 1) as nat, path);
        lemma_target_paths(root, last.targets, last.targets.len(), path);
        lemma_joined(
            candidate_paths(root, entries, (upto - 1) as nat),
            target_paths(root, last.targets, last.targets.len()),
            path,
        );
        if target_paths(root, last.targets, last.targets.len()).contains(path) {
            let t = choose|t: int|
                0 <= t < last.targets.len() && target_path(root, #[trigger] last.targets[t])
                    == Some(path);
            assert(target_path(root, entries[upto - 1].targets[t]) == Some(path));
        }
    }
}

/// Causes that were put in order are those that were there, each once.
pub proof fn law_sorted_causes(sorted: Seq<CauseView>, causes: Seq<CauseView>, k: int)
    requires
        is_sorted_form(sorted, causes),
        0 <= k < causes.len(),
    ensures
        exists|i: int| 0 <= i < sorted.len() && says_the_same(#[trigger] sorted[i], causes[k]),
        forall|i: int| 0 <= i < sorted.len() ==> causes.contains(#[trigger] sorted[i]),
        forall|i: int, j: int|
            0 <= i < j < sorted.len() ==> !says_the_same(#[trigger] sorted[i], #[trigger] sorted[j])
                && (kind_of(sorted[i]) < kind_of(sorted[j]) || parts_before(sorted[i], sorted[j])),
{
    assert(has_key_of(sorted, causes[k]));
    let i = choose|i: int|
        0 <= i < sorted.len() && cause_key(#[trigger] sorted[i]) == cause_key(causes[k]);
    law_cause_order(sorted[i], causes[k]);
    assert(says_the_same(sorted[i], causes[k]));
    assert forall|i: int, j: int| 0 <= i < j < sorted.len() implies !says_the_same(
        #[trigger] sorted[i],
        #[trigger] sorted[j],
    ) && (kind_of(sorted[i]) < kind_of(sorted[j]) || parts_before(sorted[i], sorted[j])) by {
        law_cause_order(sorted[i], sorted[j]);
        crate::text::lemma_precedes_irreflexive(cause_key(sorted[i]));
    }
}

/// Causes that are held ready count only for projects that have no others.
pub proof fn law_spare_causes(
    lists: Map<Seq<char>, Seq<CauseView>>,
    spare: Map<Seq<char>, Seq<CauseView>>,
    name: Seq<char>,
)
    ensures
        list_of(lists, name).len() > 0 ==> list_of(explanations(lists, spare), name) == list_of(
            lists,
            name,
        ),
        list_of(lists, name).len() == 0 ==> list_of(explanations(lists, spare), name) == list_of(
            spare,
            name,
        ),
{
    if list_of(lists, name).len() == 0 {
        assert(list_of(explanations(lists, spare), name) =~= list_of(spare, name));
    }
}

} // verus!
