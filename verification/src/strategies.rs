//! What the lockfile strategy changes in a result: a stronger strategy adds
//! projects, and takes none away.
use crate::affected::{
    asset_reference_jobs, file_jobs, first_jobs, first_view, lockfile_marked, source_jobs,
    AnalysisView, Changes, JobView, ModuleMatch, WaitingView,
};
use crate::laws::{after, law_affected_only_grows, law_order_is_determined, Event};
use crate::outcome::{
    globally_marked, implicit_marked, is_outcome, law_implicit_dependencies, some_depends, RunInfo,
};
use crate::semantic::analyzer::WorkspaceView;
use crate::text::texts;
use crate::trace::TraceView;
use crate::types::{
    AffectedResult, AssetReference, ChangedFile, GlobalTrigger, LockfileStrategy, Project,
    ReferenceView,
};
use crate::utils::IndexView;
use vstd::prelude::*;

verus! {

/// What an analysis goes by: the workspace, its projects, and the answer to each
/// question.
#[verifier::ext_equal]
pub struct Setting {
    pub workspace: WorkspaceView,
    pub index: IndexView,
    /// The references to each symbol in other files, where they can be found.
    pub cross: spec_fn((usize, Seq<char>)) -> Option<Seq<ReferenceView>>,
    /// The references to each asset, where they can be found.
    pub assets: spec_fn(Seq<char>) -> Option<Seq<AssetReference>>,
    /// The modules that belong to changed dependencies, where they can be found.
    pub dependencies: Option<Seq<ModuleMatch>>,
}

/// Whether no job is that of the lockfile.
pub open spec fn no_lockfile(jobs: Seq<JobView>) -> bool {
    forall|k: int| 0 <= k < jobs.len() ==> #[trigger] jobs[k] != JobView::Lockfile
}

/// Whether two analyses are the same but for the strategy, and for jobs that the
/// second one has left to do below all others. The first one has nothing to do
/// with the lockfile.
pub open spec fn has_below(below: Seq<JobView>, a: AnalysisView, b: AnalysisView) -> bool {
    &&& b == (AnalysisView { jobs: below + a.jobs, strategy: b.strategy, ..a })
    &&& no_lockfile(a.jobs)
    &&& a.waiting != WaitingView::Dependencies
}

impl Setting {
    /// What happens to an analysis next: it is answered, or takes a step.
    pub open spec fn event(self, analysis: AnalysisView) -> Event {
        match analysis.waiting {
            WaitingView::AssetReferences(asset) => Event::AssetReferences((self.assets)(asset)),
            WaitingView::Dependencies => Event::Dependencies(self.dependencies),
            WaitingView::Nothing => match analysis.trace.asking {
                Some(symbol) => Event::References((self.cross)(symbol)),
                None => Event::Step,
            },
        }
    }

    /// The analysis after the next event.
    pub open spec fn next(self, analysis: AnalysisView) -> AnalysisView {
        after(self.workspace, self.index, analysis, self.event(analysis))
    }

    /// The analysis after a number of events.
    pub open spec fn run(self, analysis: AnalysisView, steps: nat) -> AnalysisView
        decreases steps,
    {
        if steps == 0 {
            analysis
        } else {
            self.next(self.run(analysis, (steps - 1) as nat))
        }
    }

    /// What is affected stays so.
    proof fn lemma_grows(self, analysis: AnalysisView, from: nat, to: nat)
        requires
            from <= to,
        ensures
            self.run(analysis, from).trace.affected.subset_of(
                self.run(analysis, to).trace.affected,
            ),
        decreases to,
    {
        if from < to {
            self.lemma_grows(analysis, from, (to - 1) as nat);
            let before = self.run(analysis, (to - 1) as nat);
            law_affected_only_grows(self.workspace, self.index, before, self.event(before));
        }
    }

    /// An analysis that is done stays as it is.
    proof fn lemma_done_stays(self, analysis: AnalysisView, from: nat, to: nat)
        requires
            from <= to,
            self.run(analysis, from).is_done(),
        ensures
            self.run(analysis, to) == self.run(analysis, from),
        decreases to,
    {
        if from < to {
            self.lemma_done_stays(analysis, from, (to - 1) as nat);
        }
    }

    /// An analysis has affected, at any time, no more than when it is done.
    proof fn lemma_done_is_most(self, analysis: AnalysisView, at: nat, done: nat)
        requires
            self.run(analysis, done).is_done(),
        ensures
            self.run(analysis, at).trace.affected.subset_of(
                self.run(analysis, done).trace.affected,
            ),
            self.run(analysis, at).is_done() ==> self.run(analysis, at) == self.run(
                analysis,
                done,
            ),
    {
        if at <= done {
            self.lemma_grows(analysis, at, done);
            if self.run(analysis, at).is_done() {
                self.lemma_done_stays(analysis, at, done);
            }
        } else {
            self.lemma_done_stays(analysis, done, at);
        }
    }

    /// A job that is done leaves jobs below all others where they are.
    proof fn lemma_job_keeps_below(self, below: Seq<JobView>, a: AnalysisView, b: AnalysisView)
        requires
            has_below(below, a, b),
            a.waiting == WaitingView::Nothing,
            a.trace.is_done(),
            a.jobs.len() > 0,
        ensures
            has_below(below, self.next(a), self.next(b)),
            self.next(b).strategy == b.strategy,
    {
        let job = a.jobs.last();
        let rest = a.jobs.drop_last();
        assert(b.jobs.last() == job);
        assert(b.jobs.drop_last() =~= below + rest);
        assert forall|k: int| 0 <= k < rest.len() implies #[trigger] rest[k] != JobView::Lockfile by {
            assert(rest[k] == a.jobs[k]);
        }
        assert(job == a.jobs[a.jobs.len() - 1]);
        match job {
            JobView::Source { path, lines } => {
                let more = source_jobs(self.workspace, path, lines);
                assert((below + rest) + more =~= below + (rest + more));
                assert(no_lockfile(more));
                lemma_no_lockfile(rest, more);
            },
            JobView::AssetReference { asset, source_file, line } => {
                let more = asset_reference_jobs(self.workspace, asset, source_file);
                assert((below + rest) + more =~= below + (rest + more));
                assert(no_lockfile(more));
                lemma_no_lockfile(rest, more);
            },
            _ => {},
        }
    }

    /// What happens next leaves jobs below all others where they are, as long as
    /// there is something else to do.
    proof fn lemma_next_keeps_below(self, below: Seq<JobView>, a: AnalysisView, b: AnalysisView)
        requires
            has_below(below, a, b),
            !a.is_done() || below.len() == 0,
        ensures
            has_below(below, self.next(a), self.next(b)),
            self.next(b).strategy == b.strategy,
    {
        match a.waiting {
            WaitingView::AssetReferences(asset) => {
                if let Some(found) = (self.assets)(asset) {
                    let more = found.map_values(
                        |reference: AssetReference|
                            JobView::AssetReference {
                                asset,
                                source_file: reference.source_file@,
                                line: reference.line,
                            },
                    ).reverse();
                    assert((below + a.jobs) + more =~= below + (a.jobs + more));
                    assert(no_lockfile(more));
                    lemma_no_lockfile(a.jobs, more);
                }
            },
            WaitingView::Nothing => {
                if a.trace.asking is None && a.trace.is_done() {
                    if a.jobs.len() > 0 {
                        self.lemma_job_keeps_below(below, a, b);
                    } else {
                        assert(below + a.jobs =~= a.jobs);
                    }
                }
            },
            WaitingView::Dependencies => {},
        }
    }

    /// Two analyses that differ in jobs below all others go the same way until the
    /// first of them is done.
    proof fn lemma_go_together(
        self,
        below: Seq<JobView>,
        a: AnalysisView,
        b: AnalysisView,
        steps: nat,
    ) -> (at: nat)
        requires
            has_below(below, a, b),
        ensures
            at <= steps,
            has_below(below, self.run(a, at), self.run(b, at)),
            self.run(b, at).strategy == b.strategy,
            at == steps || self.run(a, at).is_done(),
        decreases steps,
    {
        if steps == 0 {
            0
        } else {
            let at = self.lemma_go_together(below, a, b, (steps - 1) as nat);
            if self.run(a, at).is_done() {
                at
            } else {
                self.lemma_next_keeps_below(below, self.run(a, at), self.run(b, at));
                steps
            }
        }
    }

    /// Two analyses that differ in the strategy alone, and have nothing to do with
    /// the lockfile, go the same way.
    proof fn lemma_same_way(self, a: AnalysisView, b: AnalysisView, steps: nat)
        requires
            has_below(Seq::empty(), a, b),
        ensures
            has_below(Seq::empty(), self.run(a, steps), self.run(b, steps)),
        decreases steps,
    {
        if steps > 0 {
            self.lemma_same_way(a, b, (steps - 1) as nat);
            self.lemma_next_keeps_below(
                Seq::empty(),
                self.run(a, (steps - 1) as nat),
                self.run(b, (steps - 1) as nat),
            );
        }
    }

    /// Two analyses that differ in the strategy alone, and have nothing to do with
    /// the lockfile, come to the same.
    proof fn lemma_without_lockfile(
        self,
        off: AnalysisView,
        on: AnalysisView,
        off_steps: nat,
        on_steps: nat,
    )
        requires
            has_below(Seq::empty(), off, on),
            self.run(off, off_steps).is_done(),
            self.run(on, on_steps).is_done(),
        ensures
            self.run(on, on_steps).trace == self.run(off, off_steps).trace,
    {
        self.lemma_same_way(off, on, off_steps);
        let ends = self.run(off, off_steps);
        assert(Seq::<JobView>::empty() + ends.jobs =~= ends.jobs);
        self.lemma_done_is_most(on, off_steps, on_steps);
    }

    /// What the lockfile marks in an analysis that is done but for it.
    spec fn marked(self, trace: TraceView) -> TraceView {
        match self.dependencies {
            Some(found) => lockfile_marked(
                self.workspace,
                self.index,
                trace,
                found,
                self.workspace.files.len(),
            ),
            None => trace,
        }
    }

    /// What the job of the lockfile comes to, where nothing else is left to do:
    /// projects are marked, and it is done unless the strategy is to trace on.
    proof fn lemma_lockfile_job(self, a: AnalysisView, b: AnalysisView)
        requires
            has_below(seq![JobView::Lockfile], a, b),
            a.is_done(),
        ensures
            self.next(self.next(b)).trace == self.marked(a.trace),
            b.strategy != LockfileStrategy::Full ==> self.next(self.next(b)).is_done(),
    {
        assert(b.jobs =~= seq![JobView::Lockfile]);
        let asked = self.next(b);
        assert(asked == (AnalysisView {
            jobs: Seq::empty(),
            waiting: WaitingView::Dependencies,
            ..b
        })) by {
            assert(b.jobs.drop_last() =~= Seq::<JobView>::empty());
        }
        if let Some(found) = self.dependencies {
            lemma_lockfile_keeps_done(
                self.workspace,
                self.index,
                a.trace,
                found,
                self.workspace.files.len(),
            );
        }
    }

    /// What an analysis with a changed lockfile has affected when it is done: what
    /// it would have without, and what the lockfile marks, and no more than that
    /// unless the strategy is to trace on.
    proof fn lemma_with_lockfile(
        self,
        off: AnalysisView,
        on: AnalysisView,
        off_steps: nat,
        on_steps: nat,
    )
        requires
            has_below(seq![JobView::Lockfile], off, on),
            self.run(off, off_steps).is_done(),
            self.run(on, on_steps).is_done(),
        ensures
            self.run(off, off_steps).trace.affected.subset_of(
                self.run(on, on_steps).trace.affected,
            ),
            self.marked(self.run(off, off_steps).trace).affected.subset_of(
                self.run(on, on_steps).trace.affected,
            ),
            on.strategy != LockfileStrategy::Full ==> self.run(on, on_steps).trace == self.marked(
                self.run(off, off_steps).trace,
            ),
    {
        let at = self.lemma_go_together(seq![JobView::Lockfile], off, on, off_steps);
        self.lemma_done_is_most(off, at, off_steps);
        self.lemma_lockfile_job(self.run(off, at), self.run(on, at));
        self.lemma_two_more(on, at);
        self.lemma_done_is_most(on, at, on_steps);
        self.lemma_done_is_most(on, at + 2, on_steps);
    }

    /// A run that is longer by two events takes them at its end.
    proof fn lemma_two_more(self, analysis: AnalysisView, steps: nat)
        ensures
            self.run(analysis, steps + 2) == self.next(self.next(self.run(analysis, steps))),
    {
        assert(self.run(analysis, steps + 1) == self.next(self.run(analysis, steps)));
    }
}

/// Jobs that are not that of the lockfile stay such with further ones.
proof fn lemma_no_lockfile(jobs: Seq<JobView>, more: Seq<JobView>)
    requires
        no_lockfile(jobs),
        no_lockfile(more),
    ensures
        no_lockfile(jobs + more),
{
    let all = jobs + more;
    assert forall|k: int| 0 <= k < all.len() implies #[trigger] all[k] != JobView::Lockfile by {
        if k < jobs.len() {
            assert(all[k] == jobs[k]);
        } else {
            assert(all[k] == more[k - jobs.len()]);
        }
    }
}

/// Marks of changed dependencies leave nothing to be traced.
proof fn lemma_lockfile_keeps_done(
    workspace: WorkspaceView,
    index: IndexView,
    trace: TraceView,
    matches: Seq<ModuleMatch>,
    upto: nat,
)
    requires
        trace.is_done(),
    ensures
        lockfile_marked(workspace, index, trace, matches, upto).is_done(),
    decreases upto,
{
    if upto > 0 {
        lemma_lockfile_keeps_done(workspace, index, trace, matches, (upto - 1) as nat);
    }
}

/// The jobs for changed files are not that of the lockfile.
proof fn lemma_file_jobs(
    files: Seq<ChangedFile>,
    lockfile_name: Option<String>,
    source: bool,
    upto: nat,
)
    ensures
        no_lockfile(file_jobs(files, lockfile_name, source, upto)),
        no_lockfile(file_jobs(files, lockfile_name, source, upto).reverse()),
    decreases upto,
{
    if upto > 0 {
        lemma_file_jobs(files, lockfile_name, source, (upto - 1) as nat);
    }
}

/// Analyses of one change with different strategies differ at first in the job of
/// the lockfile alone, and not at all where the lockfile did not change.
proof fn lemma_first_views(
    changes: Changes,
    strategy: LockfileStrategy,
    generate_report: bool,
)
    ensures
        has_below(
            if strategy != LockfileStrategy::Off && changes.lockfile_changed {
                seq![JobView::Lockfile]
            } else {
                Seq::empty()
            },
            first_view(changes, LockfileStrategy::Off, generate_report),
            first_view(changes, strategy, generate_report),
        ),
{
    let files = changes.changed_files@;
    lemma_file_jobs(files, changes.lockfile_name, false, files.len());
    lemma_file_jobs(files, changes.lockfile_name, true, files.len());
    let assets = file_jobs(files, changes.lockfile_name, false, files.len()).reverse();
    let sources = file_jobs(files, changes.lockfile_name, true, files.len()).reverse();
    lemma_no_lockfile(assets, sources);
    let off = first_jobs(changes, LockfileStrategy::Off);
    assert(off =~= assets + sources);
    let below = if strategy != LockfileStrategy::Off && changes.lockfile_changed {
        seq![JobView::Lockfile]
    } else {
        Seq::empty()
    };
    assert(first_jobs(changes, strategy) =~= below + off);
}

/// More affected projects make more implicitly affected ones.
proof fn lemma_outcome_grows(
    less: AffectedResult,
    more: AffectedResult,
    a: TraceView,
    b: TraceView,
    projects: Seq<Project>,
    triggers: Seq<GlobalTrigger>,
    run: RunInfo,
)
    requires
        a.affected.subset_of(b.affected),
        is_outcome(less, a, projects, triggers, run),
        is_outcome(more, b, projects, triggers, run),
    ensures
        texts(less.affected_projects@).to_set().subset_of(texts(more.affected_projects@).to_set()),
{
    let x = implicit_marked(a, projects);
    let y = implicit_marked(b, projects);
    assert forall|name: Seq<char>| x.affected.contains(name) implies y.affected.contains(name) by {
        law_implicit_dependencies(a, projects, name, name);
        law_implicit_dependencies(b, projects, name, name);
        if !a.affected.contains(name) {
            let d = choose|d: Seq<char>|
                a.affected.contains(d) && #[trigger] some_depends(projects, name, d);
            assert(b.affected.contains(d) && some_depends(projects, name, d));
        }
    }
    assert(globally_marked(x, projects, triggers).affected.subset_of(
        globally_marked(y, projects, triggers).affected,
    ));
}

impl Setting {
    /// What an analysis has affected when it is done grows from strategy none to
    /// direct to full, and is the same with each where the lockfile did not change.
    pub proof fn law_strategy_adds_marks(
        self,
        changes: Changes,
        generate_report: bool,
        off_steps: nat,
        direct_steps: nat,
        full_steps: nat,
    )
        requires
            self.run(
                first_view(changes, LockfileStrategy::Off, generate_report),
                off_steps,
            ).is_done(),
            self.run(
                first_view(changes, LockfileStrategy::Direct, generate_report),
                direct_steps,
            ).is_done(),
            self.run(
                first_view(changes, LockfileStrategy::Full, generate_report),
                full_steps,
            ).is_done(),
        ensures
            ({
                let off = self.run(
                    first_view(changes, LockfileStrategy::Off, generate_report),
                    off_steps,
                ).trace.affected;
                let direct = self.run(
                    first_view(changes, LockfileStrategy::Direct, generate_report),
                    direct_steps,
                ).trace.affected;
                let full = self.run(
                    first_view(changes, LockfileStrategy::Full, generate_report),
                    full_steps,
                ).trace.affected;
                &&& off.subset_of(direct)
                &&& direct.subset_of(full)
                &&& !changes.lockfile_changed ==> off == direct && direct == full
            }),
    {
        let off = first_view(changes, LockfileStrategy::Off, generate_report);
        let direct = first_view(changes, LockfileStrategy::Direct, generate_report);
        let full = first_view(changes, LockfileStrategy::Full, generate_report);
        lemma_first_views(changes, LockfileStrategy::Direct, generate_report);
        lemma_first_views(changes, LockfileStrategy::Full, generate_report);
        if changes.lockfile_changed {
            self.lemma_with_lockfile(off, direct, off_steps, direct_steps);
            self.lemma_with_lockfile(off, full, off_steps, full_steps);
        } else {
            self.lemma_without_lockfile(off, direct, off_steps, direct_steps);
            self.lemma_without_lockfile(off, full, off_steps, full_steps);
        }
    }

    /// The result, as a set of names, grows from strategy none to direct to full.
    /// Where the lockfile did not change, the three results name the same projects,
    /// in the same order.
    pub proof fn law_strategy_adds_projects(
        self,
        changes: Changes,
        generate_report: bool,
        steps: (nat, nat, nat),
        results: (AffectedResult, AffectedResult, AffectedResult),
        projects: Seq<Project>,
        triggers: Seq<GlobalTrigger>,
        run: RunInfo,
    )
        requires
            ({
                let off = self.run(
                    first_view(changes, LockfileStrategy::Off, generate_report),
                    steps.0,
                );
                let direct = self.run(
                    first_view(changes, LockfileStrategy::Direct, generate_report),
                    steps.1,
                );
                let full = self.run(
                    first_view(changes, LockfileStrategy::Full, generate_report),
                    steps.2,
                );
                &&& off.is_done() && is_outcome(results.0, off.trace, projects, triggers, run)
                &&& direct.is_done() && is_outcome(
                    results.1,
                    direct.trace,
                    projects,
                    triggers,
                    run,
                )
                &&& full.is_done() && is_outcome(results.2, full.trace, projects, triggers, run)
            }),
        ensures
            texts(results.0.affected_projects@).to_set().subset_of(
                texts(results.1.affected_projects@).to_set(),
            ),
            texts(results.1.affected_projects@).to_set().subset_of(
                texts(results.2.affected_projects@).to_set(),
            ),
            !changes.lockfile_changed ==> texts(results.0.affected_projects@) == texts(
                results.1.affected_projects@,
            ) && texts(results.1.affected_projects@) == texts(results.2.affected_projects@),
    {
        let off = self.run(first_view(changes, LockfileStrategy::Off, generate_report), steps.0);
        let direct = self.run(
            first_view(changes, LockfileStrategy::Direct, generate_report),
            steps.1,
        );
        let full = self.run(first_view(changes, LockfileStrategy::Full, generate_report), steps.2);
        self.law_strategy_adds_marks(changes, generate_report, steps.0, steps.1, steps.2);
        lemma_outcome_grows(
            results.0,
            results.1,
            off.trace,
            direct.trace,
            projects,
            triggers,
            run,
        );
        lemma_outcome_grows(
            results.1,
            results.2,
            direct.trace,
            full.trace,
            projects,
            triggers,
            run,
        );
        if !changes.lockfile_changed {
            lemma_outcome_grows(
                results.1,
                results.0,
                direct.trace,
                off.trace,
                projects,
                triggers,
                run,
            );
            lemma_outcome_grows(
                results.2,
                results.1,
                full.trace,
                direct.trace,
                projects,
                triggers,
                run,
            );
            let a = texts(results.0.affected_projects@);
            let b = texts(results.1.affected_projects@);
            let c = texts(results.2.affected_projects@);
            assert(a.to_set() =~= b.to_set());
            assert(b.to_set() =~= c.to_set());
            law_order_is_determined(a, b);
            law_order_is_determined(b, c);
        }
    }
}

} // verus!
