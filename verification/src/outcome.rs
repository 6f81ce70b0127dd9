//! What an analysis comes to: the affected projects, and the report of why.
use crate::causes::{
    cause_pairs, law_causes_are_appended, lemma_pairs_appended, list_of, reports_all,
};
use crate::fx::{in_order, insert_name, list_names, names_in, no_names};
use crate::text::texts;
use crate::trace::{AffectedState, TraceView};
use crate::types::{
    cause_views, AffectCause, AffectedReport, AffectedResult, CauseView, GlobalTrigger, Project,
    ReportTotals,
};
use crate::utils::lemma_set_push;
use rustc_hash::FxHashSet;
use vstd::prelude::*;

verus! {

/// The pairs of a project and one of its first `upto` implicit dependencies that
/// is affected.
pub open spec fn affected_dependencies(project: Project, affected: Set<Seq<char>>, upto: nat) -> Seq<
    (Seq<char>, Seq<char>),
>
    decreases upto,
{
    if upto == 0 {
        Seq::empty()
    } else {
        let before = affected_dependencies(project, affected, (upto - 1) as nat);
        let dependency = project.implicit_dependencies@[upto - 1]@;
        if affected.contains(dependency) {
            before.push((project.name@, dependency))
        } else {
            before
        }
    }
}

/// The pairs of one of the first `upto` projects and an implicit dependency of it
/// that is affected.
pub open spec fn implicit_pairs(projects: Seq<Project>, affected: Set<Seq<char>>, upto: nat) -> Seq<
    (Seq<char>, Seq<char>),
>
    decreases upto,
{
    if upto == 0 {
        Seq::empty()
    } else {
        let project = projects[upto - 1];
        implicit_pairs(projects, affected, (upto - 1) as nat) + affected_dependencies(
            project,
            affected,
            project.implicit_dependencies@.len(),
        )
    }
}

/// The trace after the first `upto` pairs marked their project for their
/// dependency.
pub open spec fn pairs_marked(
    trace: TraceView,
    pairs: Seq<(Seq<char>, Seq<char>)>,
    upto: nat,
) -> TraceView
    decreases upto,
{
    if upto == 0 {
        trace
    } else {
        let pair = pairs[upto - 1];
        pairs_marked(trace, pairs, (upto - 1) as nat).marked(
            seq![pair.0],
            seq![CauseView::ImplicitDependency { depends_on: pair.1 }],
        )
    }
}

/// The trace after the projects that implicitly depend on an affected one were
/// marked.
pub open spec fn implicit_marked(trace: TraceView, projects: Seq<Project>) -> TraceView {
    let pairs = implicit_pairs(projects, trace.affected, projects.len());
    pairs_marked(trace, pairs, pairs.len())
}

/// What a list of pairs of strings stands for.
pub open spec fn text_pairs(pairs: Seq<(String, String)>) -> Seq<(Seq<char>, Seq<char>)> {
    pairs.map_values(|pair: (String, String)| (pair.0@, pair.1@))
}

/// A list of one string.
fn one_text(text: &str) -> (r: Vec<String>)
    ensures
        texts(r@) == seq![text@],
{
    let mut r: Vec<String> = Vec::new();
    r.push(text.to_owned());
    proof {
        assert(texts(r@) =~= seq![text@]);
    }
    r
}

/// Marks each project that implicitly depends on an affected one. Projects that
/// are marked by this do not count as affected for others. A project gets a cause
/// for each time that it lists an affected one, behind those that it has.
pub fn add_implicit_dependencies(projects: &Vec<Project>, state: &mut AffectedState)
    ensures
        final(state)@ == implicit_marked(old(state)@, projects@),
        old(state)@.generate_report ==> forall|name: Seq<char>| #[trigger]
            list_of(final(state)@.causes, name) == list_of(old(state)@.causes, name)
                + implicit_causes(projects@, old(state)@.affected, name, projects@.len()),
{
    let ghost before = state@;
    let mut pairs: Vec<(String, String)> = Vec::new();
    let mut i: usize = 0;
    proof {
        assert(text_pairs(pairs@) =~= Seq::<(Seq<char>, Seq<char>)>::empty());
    }
    while i < projects.len()
        invariant
            state@ == before,
            i <= projects@.len(),
            text_pairs(pairs@) == implicit_pairs(projects@, before.affected, i as nat),
        decreases projects@.len() - i,
    {
        let project: &Project = &projects[i];
        let ghost outer = text_pairs(pairs@);
        let mut j: usize = 0;
        proof {
            assert(outer + affected_dependencies(*project, before.affected, 0) =~= outer);
        }
        while j < project.implicit_dependencies.len()
            invariant
                state@ == before,
                j <= project.implicit_dependencies@.len(),
                text_pairs(pairs@) == outer + affected_dependencies(
                    *project,
                    before.affected,
                    j as nat,
                ),
            decreases project.implicit_dependencies@.len() - j,
        {
            let dependency: &String = &project.implicit_dependencies[j];
            if state.is_affected(dependency.as_str()) {
                let ghost current = pairs@;
                let pair: (String, String) = (project.name.clone(), dependency.clone());
                pairs.push(pair);
                proof {
                    assert(text_pairs(pairs@) =~= text_pairs(current).push((pair.0@, pair.1@)));
                    assert(text_pairs(pairs@) =~= outer + affected_dependencies(
                        *project,
                        before.affected,
                        (j + 1) as nat,
                    ));
                }
            }
            j = j + 1;
        }
        i = i + 1;
    }
    let ghost views = text_pairs(pairs@);
    let mut k: usize = 0;
    while k < pairs.len()
        invariant
            views == text_pairs(pairs@),
            k <= pairs@.len(),
            state@ == pairs_marked(before, views, k as nat),
        decreases pairs@.len() - k,
    {
        proof {
            assert(views[k as int] == (pairs@[k as int].0@, pairs@[k as int].1@));
        }
        let names: Vec<String> = one_text(pairs[k].0.as_str());
        let mut causes: Vec<AffectCause> = Vec::new();
        let cause: AffectCause = AffectCause::ImplicitDependency {
            depends_on: pairs[k].1.clone(),
        };
        causes.push(cause);
        proof {
            assert(cause_views(causes@) =~= seq![cause@]);
        }
        state.mark(&names, &causes);
        k = k + 1;
    }
    proof {
        assert(views.len() == pairs@.len());
        assert(state@ == implicit_marked(before, projects@));
        if before.generate_report {
            assert forall|name: Seq<char>| #[trigger]
                list_of(state@.causes, name) == list_of(before.causes, name) + implicit_causes(
                    projects@,
                    before.affected,
                    name,
                    projects@.len(),
                ) by {
                law_implicit_causes(before, projects@, name);
            }
        }
    }
}

/// Whether a project implicitly depends on another.
pub open spec fn depends_implicitly(project: Project, dependency: Seq<char>) -> bool {
    texts(project.implicit_dependencies@).contains(dependency)
}

/// Whether some project of the given name implicitly depends on another.
pub open spec fn some_depends(projects: Seq<Project>, name: Seq<char>, dependency: Seq<char>) -> bool {
    exists|i: int|
        0 <= i < projects.len() && (#[trigger] projects[i]).name@ == name && depends_implicitly(
            projects[i],
            dependency,
        )
}

/// The pairs of a project are those of its name and an affected dependency.
proof fn lemma_affected_dependencies(
    project: Project,
    affected: Set<Seq<char>>,
    upto: nat,
    name: Seq<char>,
    dependency: Seq<char>,
)
    requires
        upto <= project.implicit_dependencies@.len(),
    ensures
        affected_dependencies(project, affected, upto).contains((name, dependency)) == (name
            == project.name@ && affected.contains(dependency) && texts(
            project.implicit_dependencies@,
        ).take(upto as int).contains(dependency)),
    decreases upto,
{
    let all = texts(project.implicit_dependencies@);
    if upto > 0 {
        lemma_affected_dependencies(project, affected, (upto - 1) as nat, name, dependency);
        let before = affected_dependencies(project, affected, (upto - 1) as nat);
        let last = project.implicit_dependencies@[upto - 1]@;
        let pair = (project.name@, last);
        assert(all.take(upto as int) =~= all.take(upto - 1).push(last));
        lemma_set_push(all.take(upto - 1), last);
        assert(all.take(upto as int).contains(dependency) == all.take(
            upto as int,
        ).to_set().contains(dependency));
        assert(all.take(upto - 1).contains(dependency) == all.take(upto - 1).to_set().contains(
            dependency,
        ));
        let longer = before.push(pair);
        assert(longer[before.len() as int] == pair);
        if before.contains((name, dependency)) {
            let k = choose|k: int| 0 <= k < before.len() && before[k] == (name, dependency);
            assert(longer[k] == (name, dependency));
        }
        if longer.contains((name, dependency)) && (name, dependency) != pair {
            let k = choose|k: int| 0 <= k < longer.len() && longer[k] == (name, dependency);
            assert(before[k] == (name, dependency));
        }
    }
}

/// The pairs are those of a project that depends on an affected one.
proof fn lemma_implicit_pairs(
    projects: Seq<Project>,
    affected: Set<Seq<char>>,
    upto: nat,
    name: Seq<char>,
    dependency: Seq<char>,
)
    requires
        upto <= projects.len(),
    ensures
        implicit_pairs(projects, affected, upto).contains((name, dependency)) == (
        affected.contains(dependency) && some_depends(projects.take(upto as int), name, dependency)),
    decreases upto,
{
    if upto > 0 {
        lemma_implicit_pairs(projects, affected, (upto - 1) as nat, name, dependency);
        let project = projects[upto - 1];
        let n = project.implicit_dependencies@.len();
        lemma_affected_dependencies(project, affected, n, name, dependency);
        let all = texts(project.implicit_dependencies@);
        assert(all.take(n as int) =~= all);
        let a = implicit_pairs(projects, affected, (upto - 1) as nat);
        let b = affected_dependencies(project, affected, n);
        let pair = (name, dependency);
        if a.contains(pair) {
            let k = choose|k: int| 0 <= k < a.len() && a[k] == pair;
            assert((a + b)[k] == pair);
        }
        if b.contains(pair) {
            let k = choose|k: int| 0 <= k < b.len() && b[k] == pair;
            assert((a + b)[a.len() + k] == pair);
        }
        if (a + b).contains(pair) {
            let k = choose|k: int| 0 <= k < (a + b).len() && (a + b)[k] == pair;
            if k < a.len() {
                assert(a[k] == pair);
            } else {
                assert(b[k - a.len()] == pair);
            }
        }
        let shorter = projects.take(upto - 1);
        let longer = projects.take(upto as int);
        if some_depends(shorter, name, dependency) {
            let i = choose|i: int|
                0 <= i < shorter.len() && (#[trigger] shorter[i]).name@ == name
                    && depends_implicitly(shorter[i], dependency);
            assert(longer[i] == shorter[i]);
        }
        if some_depends(longer, name, dependency) {
            let i = choose|i: int|
                0 <= i < longer.len() && (#[trigger] longer[i]).name@ == name && depends_implicitly(
                    longer[i],
                    dependency,
                );
            if i < shorter.len() {
                assert(shorter[i] == longer[i]);
            }
        }
        assert(longer[upto - 1] == project);
    }
}

/// Marking pairs affects what was affected and the pairs' projects.
proof fn lemma_pairs_marked(
    trace: TraceView,
    pairs: Seq<(Seq<char>, Seq<char>)>,
    upto: nat,
    name: Seq<char>,
    cause: CauseView,
)
    requires
        upto <= pairs.len(),
    ensures
        ({
            let after = pairs_marked(trace, pairs, upto);
            &&& after.generate_report == trace.generate_report
            &&& after.affected.contains(name) == (trace.affected.contains(name) || exists|k: int|
                0 <= k < upto && (#[trigger] pairs[k]).0 == name)
            &&& after.pairs().contains((name, cause)) == (trace.pairs().contains((name, cause)) || (
            trace.generate_report && exists|k: int|
                0 <= k < upto && (#[trigger] pairs[k]).0 == name && cause
                    == CauseView::ImplicitDependency { depends_on: pairs[k].1 }))
        }),
    decreases upto,
{
    if upto > 0 {
        lemma_pairs_marked(trace, pairs, (upto - 1) as nat, name, cause);
        let pair = pairs[upto - 1];
        lemma_pairs_appended(
            pairs_marked(trace, pairs, (upto - 1) as nat).causes,
            seq![pair.0],
            seq![CauseView::ImplicitDependency { depends_on: pair.1 }],
        );
        assert(seq![pair.0][0] == pair.0);
        let mine = CauseView::ImplicitDependency { depends_on: pair.1 };
        assert(seq![mine][0] == mine);
        assert(seq![pair.0].to_set().contains(name) == (name == pair.0)) by {
            if seq![pair.0].contains(name) {
            }
            if name == pair.0 {
                assert(seq![pair.0].contains(name));
            }
        }
        assert(seq![mine].contains(cause) == (cause == mine));
        assert(seq![pair.0].contains(name) == (name == pair.0));
    }
}

/// Implicit dependencies reach one level: a project becomes affected by them
/// exactly where it depends on a project that was affected before, and that is
/// recorded as its cause.
pub proof fn law_implicit_dependencies(
    trace: TraceView,
    projects: Seq<Project>,
    name: Seq<char>,
    dependency: Seq<char>,
)
    ensures
        implicit_marked(trace, projects).affected.contains(name) == (trace.affected.contains(name)
            || exists|d: Seq<char>|
            trace.affected.contains(d) && #[trigger] some_depends(projects, name, d)),
        trace.generate_report ==> implicit_marked(trace, projects).pairs().contains(
            (name, CauseView::ImplicitDependency { depends_on: dependency }),
        ) == (trace.pairs().contains((name, CauseView::ImplicitDependency { depends_on: dependency }))
            || (trace.affected.contains(dependency) && some_depends(projects, name, dependency))),
{
    let pairs = implicit_pairs(projects, trace.affected, projects.len());
    let after = implicit_marked(trace, projects);
    assert(projects.take(projects.len() as int) =~= projects);
    lemma_pairs_marked(
        trace,
        pairs,
        pairs.len(),
        name,
        CauseView::ImplicitDependency { depends_on: dependency },
    );
    if exists|k: int| 0 <= k < pairs.len() && (#[trigger] pairs[k]).0 == name {
        let k = choose|k: int| 0 <= k < pairs.len() && (#[trigger] pairs[k]).0 == name;
        assert(pairs.contains((name, pairs[k].1)));
        lemma_implicit_pairs(projects, trace.affected, projects.len(), name, pairs[k].1);
    }
    if exists|d: Seq<char>|
        trace.affected.contains(d) && #[trigger] some_depends(projects, name, d) {
        let d = choose|d: Seq<char>|
            trace.affected.contains(d) && #[trigger] some_depends(projects, name, d);
        lemma_implicit_pairs(projects, trace.affected, projects.len(), name, d);
        let k = choose|k: int| 0 <= k < pairs.len() && pairs[k] == (name, d);
        assert(pairs[k].0 == name);
    }
    lemma_implicit_pairs(projects, trace.affected, projects.len(), name, dependency);
    if pairs.contains((name, dependency)) {
        let k = choose|k: int| 0 <= k < pairs.len() && pairs[k] == (name, dependency);
        assert(pairs[k].0 == name);
    }
    let mine = CauseView::ImplicitDependency { depends_on: dependency };
    if exists|k: int|
        0 <= k < pairs.len() && (#[trigger] pairs[k]).0 == name && mine == (
        CauseView::ImplicitDependency { depends_on: pairs[k].1 }) {
        let k = choose|k: int|
            0 <= k < pairs.len() && (#[trigger] pairs[k]).0 == name && mine == (
            CauseView::ImplicitDependency { depends_on: pairs[k].1 });
        assert(pairs[k] == (name, dependency));
    }
}

/// The causes of a project by its first `upto` implicit dependencies: one for each
/// time that an affected project stands among them.
pub open spec fn dependency_causes(project: Project, affected: Set<Seq<char>>, upto: nat) -> Seq<
    CauseView,
>
    decreases upto,
{
    if upto == 0 {
        Seq::empty()
    } else {
        let before = dependency_causes(project, affected, (upto - 1) as nat);
        let depends_on = project.implicit_dependencies@[upto - 1]@;
        if affected.contains(depends_on) {
            before.push(CauseView::ImplicitDependency { depends_on })
        } else {
            before
        }
    }
}

/// The causes by implicit dependencies of those of the first `upto` projects that
/// have the given name.
pub open spec fn implicit_causes(
    projects: Seq<Project>,
    affected: Set<Seq<char>>,
    name: Seq<char>,
    upto: nat,
) -> Seq<CauseView>
    decreases upto,
{
    if upto == 0 {
        Seq::empty()
    } else {
        let before = implicit_causes(projects, affected, name, (upto - 1) as nat);
        let project = projects[upto - 1];
        if project.name@ == name {
            before + dependency_causes(project, affected, project.implicit_dependencies@.len())
        } else {
            before
        }
    }
}

/// The causes that pairs bring for the project of the given name.
spec fn pair_causes(pairs: Seq<(Seq<char>, Seq<char>)>, name: Seq<char>) -> Seq<CauseView>
    decreases pairs.len(),
{
    if pairs.len() == 0 {
        Seq::empty()
    } else {
        let before = pair_causes(pairs.drop_last(), name);
        if pairs.last().0 == name {
            before.push(CauseView::ImplicitDependency { depends_on: pairs.last().1 })
        } else {
            before
        }
    }
}

/// The causes of two lists of pairs stand one behind the other.
proof fn lemma_pair_causes_add(
    a: Seq<(Seq<char>, Seq<char>)>,
    b: Seq<(Seq<char>, Seq<char>)>,
    name: Seq<char>,
)
    ensures
        pair_causes(a + b, name) == pair_causes(a, name) + pair_causes(b, name),
    decreases b.len(),
{
    if b.len() == 0 {
        assert(a + b =~= a);
        assert(pair_causes(a, name) + pair_causes(b, name) =~= pair_causes(a, name));
    } else {
        lemma_pair_causes_add(a, b.drop_last(), name);
        assert((a + b).drop_last() =~= a + b.drop_last());
        assert((a + b).last() == b.last());
        assert(pair_causes(a + b, name) =~= pair_causes(a, name) + pair_causes(b, name));
    }
}

/// The pairs of a project bring the causes of its dependencies.
proof fn lemma_pair_causes_of_project(
    project: Project,
    affected: Set<Seq<char>>,
    upto: nat,
    name: Seq<char>,
)
    ensures
        pair_causes(affected_dependencies(project, affected, upto), name) == if project.name@
            == name {
            dependency_causes(project, affected, upto)
        } else {
            Seq::empty()
        },
    decreases upto,
{
    if upto > 0 {
        lemma_pair_causes_of_project(project, affected, (upto - 1) as nat, name);
        let before = affected_dependencies(project, affected, (upto - 1) as nat);
        let pair = (project.name@, project.implicit_dependencies@[upto - 1]@);
        assert(before.push(pair).drop_last() =~= before);
    }
}

/// The pairs of projects bring the causes of their dependencies.
proof fn lemma_pair_causes(
    projects: Seq<Project>,
    affected: Set<Seq<char>>,
    name: Seq<char>,
    upto: nat,
)
    ensures
        pair_causes(implicit_pairs(projects, affected, upto), name) == implicit_causes(
            projects,
            affected,
            name,
            upto,
        ),
    decreases upto,
{
    if upto > 0 {
        lemma_pair_causes(projects, affected, name, (upto - 1) as nat);
        let project = projects[upto - 1];
        let n = project.implicit_dependencies@.len();
        let before = implicit_pairs(projects, affected, (upto - 1) as nat);
        lemma_pair_causes_add(before, affected_dependencies(project, affected, n), name);
        lemma_pair_causes_of_project(project, affected, n, name);
        assert(pair_causes(before, name) + Seq::<CauseView>::empty() =~= pair_causes(before, name));
    }
}

/// Pairs add their causes, and touch nothing else of what is recorded.
proof fn lemma_pairs_recorded(
    trace: TraceView,
    pairs: Seq<(Seq<char>, Seq<char>)>,
    upto: nat,
    name: Seq<char>,
)
    requires
        upto <= pairs.len(),
    ensures
        ({
            let after = pairs_marked(trace, pairs, upto);
            &&& after.generate_report == trace.generate_report
            &&& after.spare == trace.spare
            &&& !trace.generate_report ==> after.causes == trace.causes
            &&& trace.generate_report ==> list_of(after.causes, name) == list_of(trace.causes, name)
                + pair_causes(pairs.take(upto as int), name)
        }),
    decreases upto,
{
    let kept = list_of(trace.causes, name);
    if upto > 0 {
        lemma_pairs_recorded(trace, pairs, (upto - 1) as nat, name);
        let before = pairs_marked(trace, pairs, (upto - 1) as nat);
        let pair = pairs[upto - 1];
        let mine = seq![CauseView::ImplicitDependency { depends_on: pair.1 }];
        assert(pairs.take(upto as int).drop_last() =~= pairs.take(upto - 1));
        assert(pairs.take(upto as int).last() == pair);
        law_causes_are_appended(before.causes, seq![pair.0], mine, name);
        assert(seq![pair.0][0] == pair.0);
        assert(seq![pair.0].contains(name) == (pair.0 == name));
        if trace.generate_report {
            let earlier = pair_causes(pairs.take(upto - 1), name);
            assert((kept + earlier) + mine =~= kept + earlier.push(mine[0]));
        }
    } else {
        assert(kept + Seq::<CauseView>::empty() =~= kept);
    }
}

/// Each implicit dependency on an affected project adds a cause behind those that
/// a project has, once for each time that it is listed; nothing else is recorded.
pub proof fn law_implicit_causes(trace: TraceView, projects: Seq<Project>, name: Seq<char>)
    ensures
        trace.generate_report ==> list_of(implicit_marked(trace, projects).causes, name) == list_of(
            trace.causes,
            name,
        ) + implicit_causes(projects, trace.affected, name, projects.len()),
        !trace.generate_report ==> implicit_marked(trace, projects).causes == trace.causes,
        implicit_marked(trace, projects).spare == trace.spare,
{
    let pairs = implicit_pairs(projects, trace.affected, projects.len());
    lemma_pairs_recorded(trace, pairs, pairs.len(), name);
    lemma_pair_causes(projects, trace.affected, name, projects.len());
    assert(pairs.take(pairs.len() as int) =~= pairs);
}

/// The causes that global triggers bring.
pub open spec fn global_causes(triggers: Seq<GlobalTrigger>) -> Seq<CauseView> {
    triggers.map_values(
        |trigger: GlobalTrigger|
            CauseView::GlobalInvalidation {
                file: trigger.file@,
                named_input: trigger.named_input@,
            },
    )
}

/// The names of projects.
pub open spec fn project_names(projects: Seq<Project>) -> Seq<Seq<char>> {
    projects.map_values(|project: Project| project.name@)
}

/// The projects that global triggers invalidate: all, where there is one.
pub open spec fn invalidated(projects: Seq<Project>, triggers: Seq<GlobalTrigger>) -> Seq<Seq<char>> {
    if triggers.len() == 0 {
        Seq::empty()
    } else {
        project_names(projects)
    }
}

/// The trace after global triggers invalidated all projects, where there are
/// any.
pub open spec fn globally_marked(
    trace: TraceView,
    projects: Seq<Project>,
    triggers: Seq<GlobalTrigger>,
) -> TraceView {
    trace.marked(invalidated(projects, triggers), global_causes(triggers))
}

/// Whether totals count the projects that are affected by the analysis, those
/// that are invalidated, and those that are both.
pub open spec fn count_projects(
    totals: ReportTotals,
    affected: Set<Seq<char>>,
    invalidated: Set<Seq<char>>,
    changed_files: usize,
) -> bool {
    &&& totals.semantically_affected == affected.len()
    &&& totals.overlap == invalidated.intersect(affected).len()
    &&& totals.globally_invalidated == invalidated.len() - invalidated.intersect(affected).len()
    &&& totals.changed_files == changed_files
}

/// Facts of a run that a report carries along.
pub struct RunInfo {
    /// How many files were changed, before any was left out.
    pub changed_files: usize,
    pub version: &'static str,
    pub started_at_unix_secs: i64,
}

/// Whether a result is what a trace comes to: the affected projects and those
/// that implicitly depend on them, and all projects where a global trigger fired,
/// in the order of their names; and the causes of each, where they are recorded.
pub open spec fn is_outcome(
    result: AffectedResult,
    trace: TraceView,
    projects: Seq<Project>,
    triggers: Seq<GlobalTrigger>,
    run: RunInfo,
) -> bool {
    let semantic = implicit_marked(trace, projects);
    let all = globally_marked(semantic, projects, triggers);
    &&& texts(result.affected_projects@).to_set() == all.affected
    &&& texts(result.affected_projects@).no_duplicates()
    &&& in_order(texts(result.affected_projects@))
    &&& match result.report {
        Some(report) => {
            &&& trace.generate_report
            &&& reports_all(report.projects@, cause_pairs(all.explanations()))
            &&& report.global_triggers@ == triggers
            &&& count_projects(
                report.totals,
                semantic.affected,
                invalidated(projects, triggers).to_set(),
                run.changed_files,
            )
            &&& report.version == run.version
            &&& report.run_started_at_unix_secs == run.started_at_unix_secs
        },
        None => !trace.generate_report,
    }
}

/// The causes that global triggers bring.
fn find_global_causes(triggers: &Vec<GlobalTrigger>) -> (r: Vec<AffectCause>)
    ensures
        cause_views(r@) == global_causes(triggers@),
{
    let ghost all = global_causes(triggers@);
    let mut r: Vec<AffectCause> = Vec::new();
    let mut i: usize = 0;
    proof {
        assert(cause_views(r@) =~= all.take(0));
    }
    while i < triggers.len()
        invariant
            all == global_causes(triggers@),
            all.len() == triggers@.len(),
            i <= triggers@.len(),
            cause_views(r@) == all.take(i as int),
        decreases triggers@.len() - i,
    {
        let cause: AffectCause = AffectCause::GlobalInvalidation {
            file: triggers[i].file.clone(),
            named_input: triggers[i].named_input.clone(),
        };
        let ghost before = r@;
        r.push(cause);
        proof {
            assert(all[i as int] == cause@);
            assert(cause_views(r@) =~= cause_views(before).push(cause@));
            assert(all.take(i + 1) =~= all.take(i as int).push(cause@));
        }
        i = i + 1;
    }
    proof {
        assert(all.take(all.len() as int) =~= all);
    }
    r
}

/// The names of projects.
pub fn list_project_names(projects: &Vec<Project>) -> (r: Vec<String>)
    ensures
        texts(r@) == project_names(projects@),
{
    let ghost all = project_names(projects@);
    let mut r: Vec<String> = Vec::new();
    let mut i: usize = 0;
    proof {
        assert(texts(r@) =~= all.take(0));
    }
    while i < projects.len()
        invariant
            all == project_names(projects@),
            i <= projects@.len(),
            texts(r@) == all.take(i as int),
        decreases projects@.len() - i,
    {
        let ghost before = r@;
        r.push(projects[i].name.clone());
        proof {
            assert(texts(r@) =~= texts(before).push(projects@[i as int].name@));
            assert(all.take(i + 1) =~= all.take(i as int).push(projects@[i as int].name@));
        }
        i = i + 1;
    }
    proof {
        assert(all.take(all.len() as int) =~= all);
    }
    r
}

/// The names, each once.
fn distinct(names: &Vec<String>) -> (r: Vec<String>)
    ensures
        texts(r@).to_set() == texts(names@).to_set(),
        texts(r@).no_duplicates(),
{
    let mut set: FxHashSet<String> = no_names();
    let ghost all = texts(names@);
    let mut i: usize = 0;
    proof {
        assert(all.take(0).to_set() =~= Set::<Seq<char>>::empty());
    }
    while i < names.len()
        invariant
            all == texts(names@),
            i <= names@.len(),
            names_in(&set) == all.take(i as int).to_set(),
        decreases names@.len() - i,
    {
        insert_name(&mut set, names[i].clone());
        proof {
            assert(all.take(i + 1) =~= all.take(i as int).push(names@[i as int]@));
            lemma_set_push(all.take(i as int), names@[i as int]@);
        }
        i = i + 1;
    }
    proof {
        assert(all.take(all.len() as int) =~= all);
    }
    list_names(&set)
}

/// Counts affected and invalidated projects.
fn count_totals(
    state: &AffectedState,
    invalidated_names: &Vec<String>,
    changed_files: usize,
) -> (r: ReportTotals)
    ensures
        count_projects(
            r,
            state@.affected,
            texts(invalidated_names@).to_set(),
            changed_files,
        ),
{
    let semantic: Vec<String> = state.affected_names();
    let globals: Vec<String> = distinct(invalidated_names);
    let ghost all = texts(globals@);
    let ghost affected = state@.affected;
    let mut both: Vec<String> = Vec::new();
    let mut i: usize = 0;
    proof {
        assert(texts(both@) =~= Seq::<Seq<char>>::empty());
        assert(all.take(0).to_set().intersect(affected) =~= Set::<Seq<char>>::empty());
        assert(texts(both@).to_set() =~= Set::<Seq<char>>::empty());
    }
    while i < globals.len()
        invariant
            all == texts(globals@),
            all.no_duplicates(),
            affected == state@.affected,
            i <= globals@.len(),
            both@.len() <= i,
            texts(both@).to_set() == all.take(i as int).to_set().intersect(affected),
            texts(both@).no_duplicates(),
        decreases globals@.len() - i,
    {
        let ghost name = globals@[i as int]@;
        let ghost before = both@;
        let ghost listed = texts(both@);
        proof {
            assert(all[i as int] == name);
            assert(all.take(i + 1) =~= all.take(i as int).push(name));
            lemma_set_push(all.take(i as int), name);
            lemma_set_push(listed, name);
            assert(!all.take(i as int).contains(name)) by {
                if all.take(i as int).contains(name) {
                    let k = choose|k: int| 0 <= k < i && all.take(i as int)[k] == name;
                    assert(all[k] == name);
                }
            }
            assert(!all.take(i as int).to_set().contains(name));
            assert(!listed.to_set().contains(name));
            assert(!listed.contains(name));
        }
        if state.is_affected(globals[i].as_str()) {
            both.push(globals[i].clone());
            proof {
                assert(texts(both@) =~= listed.push(name));
                assert(texts(both@).to_set() =~= all.take(i + 1).to_set().intersect(affected));
                let longer = listed.push(name);
                assert forall|a: int, b: int|
                    0 <= a < longer.len() && 0 <= b < longer.len() && a != b implies longer[a]
                    != longer[b] by {
                    if a == listed.len() {
                        assert(listed[b] != name) by {
                            assert(listed.contains(listed[b]));
                        }
                    } else if b == listed.len() {
                        assert(listed[a] != name) by {
                            assert(listed.contains(listed[a]));
                        }
                    } else {
                        assert(longer[a] == listed[a] && longer[b] == listed[b]);
                    }
                }
            }
        } else {
            proof {
                assert(texts(both@).to_set() =~= all.take(i + 1).to_set().intersect(affected));
            }
        }
        i = i + 1;
    }
    proof {
        assert(all.take(all.len() as int) =~= all);
        texts(semantic@).unique_seq_to_set();
        all.unique_seq_to_set();
        texts(both@).unique_seq_to_set();
        assert(texts(semantic@).len() == semantic@.len());
        assert(texts(both@).len() == both@.len());
        assert(all.len() == globals@.len());
    }
    ReportTotals {
        globally_invalidated: globals.len() - both.len(),
        semantically_affected: semantic.len(),
        overlap: both.len(),
        changed_files,
    }
}

/// What a trace comes to.
pub fn conclude(
    state: AffectedState,
    projects: &Vec<Project>,
    triggers: Vec<GlobalTrigger>,
    run: RunInfo,
) -> (r: AffectedResult)
    ensures
        is_outcome(r, state@, projects@, triggers@, run),
{
    let mut state: AffectedState = state;
    let ghost trace = state@;
    add_implicit_dependencies(projects, &mut state);
    proof {
        lemma_implicit_keeps_report(trace, projects@);
    }
    let invalidated_names: Vec<String> = if triggers.len() == 0 {
        Vec::new()
    } else {
        list_project_names(projects)
    };
    proof {
        assert(texts(invalidated_names@) =~= invalidated(projects@, triggers@));
    }
    let totals: ReportTotals = count_totals(&state, &invalidated_names, run.changed_files);
    let causes: Vec<AffectCause> = find_global_causes(&triggers);
    state.mark(&invalidated_names, &causes);
    let affected_projects: Vec<String> = state.affected_names();
    let report: Option<AffectedReport> = if state.generates_report() {
        Some(
            AffectedReport {
                projects: state.cause_report(),
                global_triggers: triggers,
                totals,
                version: run.version,
                run_started_at_unix_secs: run.started_at_unix_secs,
            },
        )
    } else {
        None
    };
    AffectedResult { affected_projects, report }
}

/// Implicit dependencies do not change whether causes are recorded.
proof fn lemma_implicit_keeps_report(trace: TraceView, projects: Seq<Project>)
    ensures
        implicit_marked(trace, projects).generate_report == trace.generate_report,
{
    let pairs = implicit_pairs(projects, trace.affected, projects.len());
    lemma_pairs_marked(
        trace,
        pairs,
        pairs.len(),
        Seq::empty(),
        CauseView::ImplicitDependency { depends_on: Seq::empty() },
    );
}

} // verus!
