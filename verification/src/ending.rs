//! That an analysis comes to an end.
use crate::affected::{
    all_lockfile_symbols, asset_reference_jobs, lockfile_marked, source_jobs, trace_job,
    AnalysisView, JobView, ModuleMatch, WaitingView,
};
use crate::reach::{lemma_either, lemma_last_or_rest, lemma_one_more, lemma_visits, World};
use crate::semantic::analyzer::{
    all_local_references, containers, exports_among, file_number, local_export_name, names_around,
    AnalyzedView, WorkspaceView,
};
use crate::semantic::naming::{are_known, known_names, law_names_are_known};
use crate::strategies::Setting;
use crate::trace::{
    export_targets, follows, holders, local_targets, other_names, own_exports, reference_names,
    reference_targets, symbols_of, visits, TaskView, TraceView,
};
use crate::types::{AssetReference, ExportView, ReferenceView};
use crate::utils::{line_offset, IndexView};
use vstd::prelude::*;

verus! {

/// The names that declarations and exports of a file can have.
pub open spec fn file_names(file: AnalyzedView) -> Seq<Seq<char>> {
    known_names(file.file_data.nodes) + file.exports.map_values(
        |export: ExportView| export.exported_name,
    ) + file.exports.map_values(|export: ExportView| local_export_name(export))
}

/// The symbols that the first `upto` files can have.
pub open spec fn known_symbols(files: Seq<AnalyzedView>, upto: nat) -> Seq<(usize, Seq<char>)>
    decreases upto,
{
    if upto == 0 {
        Seq::empty()
    } else {
        known_symbols(files, (upto - 1) as nat) + symbols_of(
            (upto - 1) as usize,
            file_names(files[upto - 1]),
        )
    }
}

/// Whether names are names that a file can have.
spec fn in_file(file: AnalyzedView, names: Seq<Seq<char>>) -> bool {
    forall|k: int| 0 <= k < names.len() ==> file_names(file).contains(#[trigger] names[k])
}

/// Names that nodes carry are names of the file.
proof fn lemma_known_in_file(file: AnalyzedView, names: Seq<Seq<char>>)
    requires
        are_known(file.file_data.nodes, names),
    ensures
        in_file(file, names),
{
    let known = known_names(file.file_data.nodes);
    assert forall|k: int| 0 <= k < names.len() implies file_names(file).contains(
        #[trigger] names[k],
    ) by {
        let j = choose|j: int| 0 <= j < known.len() && known[j] == names[k];
        assert(file_names(file)[j] == names[k]);
    }
}

/// What a reference in a file belongs to has names of the file.
proof fn lemma_around_in_file(file: AnalyzedView, reference: ReferenceView)
    ensures
        in_file(file, names_around(file.file_data, reference)),
{
    let source = file.file_data.source;
    let low = line_offset(source, reference.line as nat);
    let after = line_offset(source, reference.line as nat + 1);
    law_names_are_known(
        file.file_data.nodes,
        low + (reference.column as nat + 1),
        low,
        if after > 0 {
            (after - 1) as nat
        } else {
            0
        },
    );
    lemma_known_in_file(file, names_around(file.file_data, reference));
}

/// Names without one of them are names of the file.
proof fn lemma_others_in_file(file: AnalyzedView, names: Seq<Seq<char>>, name: Seq<char>)
    requires
        in_file(file, names),
    ensures
        in_file(file, other_names(names, name)),
    decreases names.len(),
{
    if names.len() > 0 {
        let rest = names.drop_last();
        assert forall|k: int| 0 <= k < rest.len() implies file_names(file).contains(
            #[trigger] rest[k],
        ) by {
            assert(rest[k] == names[k]);
        }
        lemma_others_in_file(file, rest, name);
        assert(names.last() == names[names.len() - 1]);
    }
}

/// The declarations that hold references have names of the file.
proof fn lemma_holders_in_file(
    file: AnalyzedView,
    references: Seq<ReferenceView>,
    symbol: Seq<char>,
    upto: nat,
)
    ensures
        in_file(file, holders(file.file_data, references, symbol, upto)),
    decreases upto,
{
    if upto > 0 {
        lemma_holders_in_file(file, references, symbol, (upto - 1) as nat);
        lemma_around_in_file(file, references[upto - 1]);
        lemma_others_in_file(
            file,
            names_around(file.file_data, references[upto - 1]),
            symbol,
        );
    }
}

/// The names of exports are names of the file.
proof fn lemma_export_in_file(file: AnalyzedView, i: int)
    requires
        0 <= i < file.exports.len(),
    ensures
        file_names(file).contains(file.exports[i].exported_name),
        file_names(file).contains(local_export_name(file.exports[i])),
{
    let n = known_names(file.file_data.nodes).len();
    assert(file_names(file)[n + i] == file.exports[i].exported_name);
    assert(file_names(file)[n + file.exports.len() + i] == local_export_name(file.exports[i]));
}

/// The exports among declarations have names of the file.
proof fn lemma_exports_in_file(
    file: AnalyzedView,
    symbol: Seq<char>,
    declarations: Set<Seq<char>>,
    upto: nat,
)
    requires
        upto <= file.exports.len(),
    ensures
        in_file(file, exports_among(file.exports, symbol, declarations, upto)),
        in_file(file, own_exports(file.exports, upto)),
    decreases upto,
{
    if upto > 0 {
        lemma_exports_in_file(file, symbol, declarations, (upto - 1) as nat);
        lemma_export_in_file(file, upto - 1);
    }
}

/// A name of a file is a symbol of the workspace.
proof fn lemma_symbol_known(files: Seq<AnalyzedView>, upto: nat, i: int, name: Seq<char>)
    requires
        0 <= i < upto <= files.len(),
        file_names(files[i]).contains(name),
    ensures
        known_symbols(files, upto).contains((i as usize, name)),
    decreases upto,
{
    let before = known_symbols(files, (upto - 1) as nat);
    let all = known_symbols(files, upto);
    if i < upto - 1 {
        lemma_symbol_known(files, (upto - 1) as nat, i, name);
        let k = choose|k: int| 0 <= k < before.len() && before[k] == (i as usize, name);
        assert(all[k] == (i as usize, name));
    } else {
        let names = file_names(files[i]);
        let k = choose|k: int| 0 <= k < names.len() && names[k] == name;
        assert(all[before.len() + k] == (i as usize, name));
    }
}

/// Whether a set of symbols holds all that files can have.
pub open spec fn holds_known(workspace: WorkspaceView, set: Set<(usize, Seq<char>)>) -> bool {
    forall|m: (usize, Seq<char>)| #[trigger]
        known_symbols(workspace.files, workspace.files.len()).contains(m) ==> set.contains(m)
}

/// Names of a file make symbols of the workspace.
proof fn lemma_symbols_known(
    workspace: WorkspaceView,
    set: Set<(usize, Seq<char>)>,
    i: int,
    names: Seq<Seq<char>>,
    m: (usize, Seq<char>),
)
    requires
        holds_known(workspace, set),
        0 <= i < workspace.files.len(),
        in_file(workspace.files[i], names),
        symbols_of(i as usize, names).contains(m),
    ensures
        set.contains(m),
{
    let list = symbols_of(i as usize, names);
    let k = choose|k: int| 0 <= k < list.len() && list[k] == m;
    assert(file_names(workspace.files[i]).contains(names[k]));
    lemma_symbol_known(workspace.files, workspace.files.len(), i, names[k]);
}

/// What a symbol leads to in its file is a symbol of the workspace.
proof fn lemma_local_known(
    workspace: WorkspaceView,
    set: Set<(usize, Seq<char>)>,
    n: (usize, Seq<char>),
    m: (usize, Seq<char>),
)
    requires
        holds_known(workspace, set),
        symbols_of(n.0, local_targets(workspace, n)).contains(m) || symbols_of(
            n.0,
            export_targets(workspace, n),
        ).contains(m),
    ensures
        set.contains(m),
{
    if n.0 < workspace.files.len() {
        let file = workspace.files[n.0 as int];
        let references = all_local_references(file.file_data, file.relative_path, n.1);
        lemma_holders_in_file(file, references, n.1, references.len());
        lemma_exports_in_file(
            file,
            n.1,
            containers(file.file_data, references, references.len()),
            file.exports.len(),
        );
        if symbols_of(n.0, local_targets(workspace, n)).contains(m) {
            lemma_symbols_known(workspace, set, n.0 as int, local_targets(workspace, n), m);
        } else {
            lemma_symbols_known(workspace, set, n.0 as int, export_targets(workspace, n), m);
        }
    }
}

/// A file that is found is one of the files.
proof fn lemma_found_file(files: Seq<AnalyzedView>, path: Seq<char>, from: int)
    requires
        0 <= from,
    ensures
        file_number(files, path, from) matches Some(i) ==> 0 <= i < files.len(),
    decreases files.len() - from,
{
    if from < files.len() {
        lemma_found_file(files, path, from + 1);
    }
}

/// What a reference leads to is a symbol of the workspace.
proof fn lemma_reference_known(
    workspace: WorkspaceView,
    set: Set<(usize, Seq<char>)>,
    reference: ReferenceView,
    m: (usize, Seq<char>),
)
    requires
        holds_known(workspace, set),
        reference_targets(workspace, reference).contains(m),
    ensures
        set.contains(m),
{
    lemma_found_file(workspace.files, reference.file_path, 0);
    let i = file_number(workspace.files, reference.file_path, 0)->0;
    let file = workspace.files[i];
    lemma_around_in_file(file, reference);
    lemma_exports_in_file(file, Seq::empty(), Set::empty(), file.exports.len());
    lemma_symbols_known(workspace, set, i, reference_names(file, reference), m);
}

/// Whether a trace is to visit no symbols but those of a set.
spec fn stays_within(trace: TraceView, set: Set<(usize, Seq<char>)>) -> bool {
    &&& forall|m: (usize, Seq<char>)| #[trigger]
        trace.pending.contains(TaskView::Visit(m)) ==> set.contains(m)
    &&& forall|m: (usize, Seq<char>)| #[trigger] trace.roots.contains(m) ==> set.contains(m)
}

/// A step leads to no symbols but those of the workspace.
proof fn lemma_step_stays_within(
    workspace: WorkspaceView,
    index: IndexView,
    trace: TraceView,
    set: Set<(usize, Seq<char>)>,
)
    requires
        holds_known(workspace, set),
        stays_within(trace, set),
    ensures
        stays_within(trace.stepped(workspace, index), set),
{
    let after = trace.stepped(workspace, index);
    if trace.pending.len() > 0 {
        let rest = trace.pending.drop_last();
        assert forall|m: (usize, Seq<char>)| #[trigger]
            after.pending.contains(TaskView::Visit(m)) implies set.contains(m) by {
            let task = TaskView::Visit(m);
            lemma_last_or_rest(trace.pending, task);
            match trace.pending.last() {
                TaskView::Visit(n) => {
                    let list = symbols_of(n.0, local_targets(workspace, n));
                    lemma_one_more(rest, TaskView::Ask(n), task);
                    lemma_either(rest.push(TaskView::Ask(n)), visits(list), task);
                    lemma_visits(list, task);
                    if list.contains(m) {
                        lemma_local_known(workspace, set, n, m);
                    }
                },
                TaskView::Ask(n) => {},
                TaskView::Follow(n, reference) => {
                    let list = reference_targets(workspace, reference);
                    lemma_either(rest, visits(list), task);
                    lemma_visits(list, task);
                    if list.contains(m) {
                        lemma_reference_known(workspace, set, reference, m);
                    }
                },
            }
        }
    } else if trace.roots.len() > 0 {
        let root = trace.roots.last();
        assert(trace.roots[trace.roots.len() - 1] == root);
        assert(trace.roots.contains(root));
        assert forall|m: (usize, Seq<char>)| #[trigger]
            after.pending.contains(TaskView::Visit(m)) implies set.contains(m) by {
            let k = choose|k: int|
                0 <= k < after.pending.len() && after.pending[k] == TaskView::Visit(m);
            assert(after.pending[k] == TaskView::Visit(root));
        }
        assert forall|m: (usize, Seq<char>)| #[trigger] after.roots.contains(
            m,
        ) implies set.contains(m) by {
            let k = choose|k: int| 0 <= k < after.roots.len() && after.roots[k] == m;
            assert(trace.roots[k] == m);
            assert(trace.roots.contains(m));
        }
    }
}

/// An answer leads to no symbols but those of the workspace.
proof fn lemma_answer_stays_within(
    workspace: WorkspaceView,
    trace: TraceView,
    references: Option<Seq<ReferenceView>>,
    set: Set<(usize, Seq<char>)>,
)
    requires
        holds_known(workspace, set),
        stays_within(trace, set),
    ensures
        stays_within(trace.answered(workspace, references), set),
{
    let after = trace.answered(workspace, references);
    if let Some(n) = trace.asking {
        assert forall|m: (usize, Seq<char>)| #[trigger]
            after.pending.contains(TaskView::Visit(m)) implies set.contains(m) by {
            let task = TaskView::Visit(m);
            if let Some(found) = references {
                let list = symbols_of(n.0, export_targets(workspace, n));
                lemma_either(trace.pending, visits(list), task);
                lemma_visits(list, task);
                lemma_either(trace.pending, follows(n, found), task);
                lemma_no_visits(n, found, task);
                if found.len() == 0 && list.contains(m) {
                    lemma_local_known(workspace, set, n, m);
                }
            }
        }
    }
}

/// The tasks to follow references are no visits.
proof fn lemma_no_visits(
    symbol: (usize, Seq<char>),
    references: Seq<ReferenceView>,
    task: TaskView,
)
    requires
        task is Visit,
    ensures
        !follows(symbol, references).contains(task),
{
    let list = follows(symbol, references);
    if list.contains(task) {
        let k = choose|k: int| 0 <= k < list.len() && list[k] == task;
        assert(list[k] == TaskView::Follow(symbol, references[references.len() - 1 - k]));
    }
}

impl World {
    /// How many steps a task can take, new visits aside.
    spec fn weight(self, task: TaskView) -> nat {
        match task {
            TaskView::Visit(_) => 1,
            TaskView::Ask(n) => 2 + self.answer_weight(n),
            TaskView::Follow(_, reference) => 1 + reference_targets(self.workspace, reference).len(),
        }
    }

    /// How many steps the references to a symbol can take, new visits aside.
    spec fn answer_weight(self, n: (usize, Seq<char>)) -> nat {
        if (self.cross)(n).len() == 0 {
            export_targets(self.workspace, n).len()
        } else {
            self.follow_weights(follows(n, (self.cross)(n)))
        }
    }

    /// How many steps follows can take, new visits aside.
    spec fn follow_weights(self, tasks: Seq<TaskView>) -> nat
        decreases tasks.len(),
    {
        if tasks.len() == 0 {
            0
        } else {
            self.follow_weights(tasks.drop_last()) + match tasks.last() {
                TaskView::Follow(_, reference) => 1 + reference_targets(
                    self.workspace,
                    reference,
                ).len(),
                _ => 0,
            }
        }
    }

    /// How many steps tasks can take, new visits aside.
    spec fn weights(self, tasks: Seq<TaskView>) -> nat
        decreases tasks.len(),
    {
        if tasks.len() == 0 {
            0
        } else {
            self.weights(tasks.drop_last()) + self.weight(tasks.last())
        }
    }

    /// How many steps a trace can take, new visits aside.
    spec fn trace_weight(self, trace: TraceView) -> nat {
        self.weights(trace.pending) + 2 * trace.roots.len() + match trace.asking {
            Some(n) => 1 + self.answer_weight(n),
            None => 0,
        }
    }

    /// The weights of two lists add up.
    proof fn lemma_weights_add(self, a: Seq<TaskView>, b: Seq<TaskView>)
        ensures
            self.weights(a + b) == self.weights(a) + self.weights(b),
        decreases b.len(),
    {
        if b.len() == 0 {
            assert(a + b =~= a);
        } else {
            self.lemma_weights_add(a, b.drop_last());
            assert((a + b).drop_last() =~= a + b.drop_last());
            assert((a + b).last() == b.last());
        }
    }

    /// The weight of visits is their number.
    proof fn lemma_weights_visits(self, tasks: Seq<TaskView>)
        requires
            forall|i: int| 0 <= i < tasks.len() ==> (#[trigger] tasks[i]) is Visit,
        ensures
            self.weights(tasks) == tasks.len(),
        decreases tasks.len(),
    {
        if tasks.len() > 0 {
            assert(tasks[tasks.len() - 1] is Visit);
            self.lemma_weights_visits(tasks.drop_last());
        }
    }

    /// The weight of follows is that of an answer.
    proof fn lemma_weights_follows(self, tasks: Seq<TaskView>)
        requires
            forall|i: int| 0 <= i < tasks.len() ==> (#[trigger] tasks[i]) is Follow,
        ensures
            self.weights(tasks) == self.follow_weights(tasks),
        decreases tasks.len(),
    {
        if tasks.len() > 0 {
            assert(tasks[tasks.len() - 1] is Follow);
            self.lemma_weights_follows(tasks.drop_last());
        }
    }

    /// The weight of the visits of symbols is their number.
    proof fn lemma_weight_of_visits(self, symbols: Seq<(usize, Seq<char>)>)
        ensures
            self.weights(visits(symbols)) == symbols.len(),
    {
        let tasks = visits(symbols);
        assert forall|i: int| 0 <= i < tasks.len() implies (#[trigger] tasks[i]) is Visit by {
            assert(tasks[i] == TaskView::Visit(symbols[symbols.len() - 1 - i]));
        }
        self.lemma_weights_visits(tasks);
    }

    /// A step that visits nothing new makes the weight smaller.
    proof fn lemma_next_is_lighter(self, trace: TraceView)
        requires
            !trace.is_done(),
        ensures
            self.next(trace).visited == trace.visited ==> self.trace_weight(self.next(trace))
                < self.trace_weight(trace),
            self.next(trace).visited != trace.visited ==> trace.asking is None
                && trace.pending.len() > 0 && (trace.pending.last() matches TaskView::Visit(n)
                && !trace.visited.contains(n) && self.next(trace).visited == trace.visited.insert(
                n,
            )),
    {
        let after = self.next(trace);
        match trace.asking {
            Some(n) => {
                let found = (self.cross)(n);
                if found.len() == 0 {
                    let list = symbols_of(n.0, export_targets(self.workspace, n));
                    self.lemma_weights_add(trace.pending, visits(list));
                    self.lemma_weight_of_visits(list);
                } else {
                    let tasks = follows(n, found);
                    assert forall|i: int| 0 <= i < tasks.len() implies (
                    #[trigger] tasks[i]) is Follow by {
                        assert(tasks[i] == TaskView::Follow(n, found[found.len() - 1 - i]));
                    }
                    self.lemma_weights_follows(tasks);
                    self.lemma_weights_add(trace.pending, tasks);
                }
            },
            None => {
                if trace.pending.len() > 0 {
                    let rest = trace.pending.drop_last();
                    match trace.pending.last() {
                        TaskView::Visit(n) => {
                            if !trace.visited.contains(n) {
                                assert(after.visited.contains(n));
                            }
                        },
                        TaskView::Ask(n) => {},
                        TaskView::Follow(n, reference) => {
                            let list = reference_targets(self.workspace, reference);
                            self.lemma_weights_add(rest, visits(list));
                            self.lemma_weight_of_visits(list);
                        },
                    }
                } else {
                    let root = TaskView::Visit(trace.roots.last());
                    assert(seq![root].drop_last() =~= Seq::<TaskView>::empty());
                    assert(self.weights(seq![root]) == 1) by {
                        reveal_with_fuel(World::weights, 2);
                    }
                    assert(self.weights(trace.pending) == 0);
                }
            },
        }
    }

    /// A run can be told from its first step.
    proof fn lemma_run_first(self, trace: TraceView, steps: nat)
        ensures
            self.run(trace, steps + 1) == self.run(self.next(trace), steps),
        decreases steps,
    {
        if steps == 0 {
            reveal_with_fuel(World::run, 2);
        } else {
            self.lemma_run_first(trace, (steps - 1) as nat);
        }
    }

    /// A trace that stays within a finite set of symbols is done after some steps.
    proof fn lemma_ends(self, trace: TraceView, set: Set<(usize, Seq<char>)>) -> (steps: nat)
        requires
            set.finite(),
            holds_known(self.workspace, set),
            stays_within(trace, set),
        ensures
            self.run(trace, steps).is_done(),
        decreases set.difference(trace.visited).len(), self.trace_weight(trace),
    {
        if trace.is_done() {
            0
        } else {
            let after = self.next(trace);
            self.lemma_next_is_lighter(trace);
            match trace.asking {
                Some(n) => {
                    lemma_answer_stays_within(
                        self.workspace,
                        trace,
                        Some((self.cross)(n)),
                        set,
                    );
                },
                None => {
                    lemma_step_stays_within(self.workspace, self.index, trace, set);
                },
            }
            if after.visited != trace.visited {
                lemma_fewer_left(trace, after, set);
            }
            let rest = self.lemma_ends(after, set);
            self.lemma_run_first(trace, rest);
            rest + 1
        }
    }

    /// A trace comes to an end, even where symbols refer to each other in circles:
    /// there is a number of steps after which it is done.
    pub proof fn law_trace_ends(self, start: TraceView, roots: Seq<(usize, Seq<char>)>)
        ensures
            exists|steps: nat| (#[trigger] self.run(start.begun(roots), steps)).is_done(),
    {
        let set = lemma_set_of(self.workspace, start.begun(roots));
        let steps = self.lemma_ends(start.begun(roots), set);
        assert(self.run(start.begun(roots), steps).is_done());
    }
}

/// A symbol that is visited leaves one less to be visited.
proof fn lemma_fewer_left(trace: TraceView, after: TraceView, set: Set<(usize, Seq<char>)>)
    requires
        set.finite(),
        stays_within(trace, set),
        trace.pending.len() > 0,
        trace.pending.last() matches TaskView::Visit(n) && !trace.visited.contains(n)
            && after.visited == trace.visited.insert(n),
    ensures
        set.difference(after.visited).len() < set.difference(trace.visited).len(),
{
    let n = trace.pending.last()->Visit_0;
    lemma_last_or_rest(trace.pending, trace.pending.last());
    assert(trace.pending.contains(TaskView::Visit(n)));
    let left = set.difference(trace.visited);
    assert(left.contains(n));
    assert(set.difference(after.visited) =~= left.remove(n));
    assert(left.finite());
}

/// The symbols that a trace can visit: those of the workspace, and those that it
/// is to visit already. They are finitely many.
proof fn lemma_set_of(workspace: WorkspaceView, trace: TraceView) -> (set: Set<
    (usize, Seq<char>),
>)
    ensures
        set.finite(),
        holds_known(workspace, set),
        stays_within(trace, set),
{
    let known = known_symbols(workspace.files, workspace.files.len());
    let waiting = trace.pending.map_values(
        |task: TaskView|
            match task {
                TaskView::Visit(m) => m,
                TaskView::Ask(m) => m,
                TaskView::Follow(m, _) => m,
            },
    );
    broadcast use vstd::seq_lib::seq_to_set_is_finite;

    let set = known.to_set() + trace.roots.to_set() + waiting.to_set();
    assert forall|m: (usize, Seq<char>)| #[trigger] known.contains(m) implies set.contains(m) by {
        assert(known.to_set().contains(m));
    }
    assert forall|m: (usize, Seq<char>)| #[trigger] trace.roots.contains(m) implies set.contains(
        m,
    ) by {
        assert(trace.roots.to_set().contains(m));
    }
    assert forall|m: (usize, Seq<char>)| #[trigger]
        trace.pending.contains(TaskView::Visit(m)) implies set.contains(m) by {
        let k = choose|k: int|
            0 <= k < trace.pending.len() && trace.pending[k] == TaskView::Visit(m);
        assert(waiting[k] == m);
        assert(waiting.to_set().contains(m));
    }
    set
}

impl Setting {
    /// What a trace of the analysis goes by; references that cannot be found are
    /// none.
    spec fn world(self) -> World {
        World {
            workspace: self.workspace,
            index: self.index,
            cross: |n: (usize, Seq<char>)|
                match (self.cross)(n) {
                    Some(found) => found,
                    None => Seq::empty(),
                },
        }
    }

    /// How many steps a job can take that asks for nothing, traces aside.
    spec fn plain_weight(self, job: JobView) -> nat {
        match job {
            JobView::Source { path, lines } => 1 + source_jobs(self.workspace, path, lines).len(),
            JobView::AssetReference { asset, source_file, line } => 1 + asset_reference_jobs(
                self.workspace,
                asset,
                source_file,
            ).len(),
            _ => 1,
        }
    }

    /// How many steps jobs can take that ask for nothing, traces aside.
    spec fn plain_weights(self, jobs: Seq<JobView>) -> nat
        decreases jobs.len(),
    {
        if jobs.len() == 0 {
            0
        } else {
            self.plain_weights(jobs.drop_last()) + self.plain_weight(jobs.last())
        }
    }

    /// The jobs that the references to an asset are.
    spec fn asset_jobs(self, asset: Seq<char>) -> Seq<JobView> {
        match (self.assets)(asset) {
            Some(found) => found.map_values(
                |reference: AssetReference|
                    JobView::AssetReference {
                        asset,
                        source_file: reference.source_file@,
                        line: reference.line,
                    },
            ).reverse(),
            None => Seq::empty(),
        }
    }

    /// How many steps a job can take, traces aside.
    spec fn job_weight(self, job: JobView) -> nat {
        match job {
            JobView::Asset { path, lines } => 2 + self.plain_weights(self.asset_jobs(path)),
            JobView::Lockfile => 3,
            _ => self.plain_weight(job),
        }
    }

    /// How many steps jobs can take, traces aside.
    spec fn job_weights(self, jobs: Seq<JobView>) -> nat
        decreases jobs.len(),
    {
        if jobs.len() == 0 {
            0
        } else {
            self.job_weights(jobs.drop_last()) + self.job_weight(jobs.last())
        }
    }

    /// How many steps an analysis can take, traces aside.
    spec fn analysis_weight(self, analysis: AnalysisView) -> nat {
        self.job_weights(analysis.jobs) + match analysis.waiting {
            WaitingView::Nothing => 0nat,
            WaitingView::AssetReferences(asset) => 1 + self.plain_weights(self.asset_jobs(asset)),
            WaitingView::Dependencies => 2,
        }
    }

    /// The weights of two lists add up.
    proof fn lemma_job_weights_add(self, a: Seq<JobView>, b: Seq<JobView>)
        ensures
            self.job_weights(a + b) == self.job_weights(a) + self.job_weights(b),
        decreases b.len(),
    {
        if b.len() == 0 {
            assert(a + b =~= a);
        } else {
            self.lemma_job_weights_add(a, b.drop_last());
            assert((a + b).drop_last() =~= a + b.drop_last());
            assert((a + b).last() == b.last());
        }
    }

    /// The weight of traces is their number.
    proof fn lemma_traces_weigh(self, jobs: Seq<JobView>)
        requires
            forall|i: int| 0 <= i < jobs.len() ==> (#[trigger] jobs[i]) is Trace,
        ensures
            self.job_weights(jobs) == jobs.len(),
        decreases jobs.len(),
    {
        if jobs.len() > 0 {
            assert(jobs[jobs.len() - 1] is Trace);
            self.lemma_traces_weigh(jobs.drop_last());
        }
    }

    /// Jobs that ask for nothing weigh what they can take.
    proof fn lemma_references_weigh(self, jobs: Seq<JobView>)
        requires
            forall|i: int| 0 <= i < jobs.len() ==> (#[trigger] jobs[i]) is AssetReference,
        ensures
            self.job_weights(jobs) == self.plain_weights(jobs),
        decreases jobs.len(),
    {
        if jobs.len() > 0 {
            assert(jobs[jobs.len() - 1] is AssetReference);
            self.lemma_references_weigh(jobs.drop_last());
        }
    }

    /// Doing a job makes the weight smaller.
    proof fn lemma_job_is_lighter(self, analysis: AnalysisView)
        requires
            analysis.waiting == WaitingView::Nothing,
            analysis.trace.is_done(),
            analysis.jobs.len() > 0,
        ensures
            self.analysis_weight(self.next(analysis)) < self.analysis_weight(analysis),
    {
        let rest = analysis.jobs.drop_last();
        match analysis.jobs.last() {
            JobView::Source { path, lines } => {
                let more = source_jobs(self.workspace, path, lines);
                self.lemma_traces_weigh(more);
                self.lemma_job_weights_add(rest, more);
            },
            JobView::AssetReference { asset, source_file, line } => {
                let more = asset_reference_jobs(self.workspace, asset, source_file);
                self.lemma_traces_weigh(more);
                self.lemma_job_weights_add(rest, more);
            },
            _ => {},
        }
    }

    /// An answer that the analysis waits for makes the weight smaller, and leaves
    /// its trace to visit what it was to visit.
    proof fn lemma_waiting_is_lighter(self, analysis: AnalysisView, set: Set<(usize, Seq<char>)>)
        requires
            analysis.waiting != WaitingView::Nothing,
            stays_within(analysis.trace, set),
        ensures
            self.analysis_weight(self.next(analysis)) < self.analysis_weight(analysis),
            stays_within(self.next(analysis).trace, set),
    {
        match analysis.waiting {
            WaitingView::AssetReferences(asset) => {
                let more = self.asset_jobs(asset);
                self.lemma_references_weigh(more);
                self.lemma_job_weights_add(analysis.jobs, more);
            },
            WaitingView::Dependencies => {
                if let Some(found) = self.dependencies {
                    let files = self.workspace.files.len();
                    lemma_lockfile_tasks(
                        self.workspace,
                        self.index,
                        analysis.trace,
                        found,
                        files,
                    );
                    let more = trace_job(all_lockfile_symbols(self.workspace, found, files));
                    self.lemma_traces_weigh(more);
                    self.lemma_job_weights_add(analysis.jobs, more);
                }
            },
            WaitingView::Nothing => {},
        }
    }

    /// A step of a trace leaves the rest of the analysis, leads to no symbols but
    /// those of the workspace, and makes the trace smaller.
    proof fn lemma_trace_is_lighter(self, analysis: AnalysisView, set: Set<(usize, Seq<char>)>)
        requires
            analysis.waiting == WaitingView::Nothing,
            !analysis.trace.is_done(),
            set.finite(),
            holds_known(self.workspace, set),
            stays_within(analysis.trace, set),
        ensures
            self.analysis_weight(self.next(analysis)) == self.analysis_weight(analysis),
            stays_within(self.next(analysis).trace, set),
            ({
                let left = set.difference(analysis.trace.visited).len();
                let after = set.difference(self.next(analysis).trace.visited).len();
                after < left || (after == left && self.world().trace_weight(
                    self.next(analysis).trace,
                ) < self.world().trace_weight(analysis.trace))
            }),
    {
        let trace = analysis.trace;
        let after = self.next(analysis).trace;
        let world = self.world();
        world.lemma_next_is_lighter(trace);
        match trace.asking {
            Some(n) => {
                lemma_answer_stays_within(self.workspace, trace, (self.cross)(n), set);
                if (self.cross)(n) is Some {
                    assert(after == world.next(trace));
                }
            },
            None => {
                lemma_step_stays_within(self.workspace, self.index, trace, set);
                assert(after == world.next(trace));
                if after.visited != trace.visited {
                    lemma_fewer_left(trace, after, set);
                }
            },
        }
    }

    /// A run can be told from its first event.
    proof fn lemma_first_event(self, analysis: AnalysisView, steps: nat)
        ensures
            self.run(analysis, steps + 1) == self.run(self.next(analysis), steps),
        decreases steps,
    {
        if steps == 0 {
            reveal_with_fuel(Setting::run, 2);
        } else {
            self.lemma_first_event(analysis, (steps - 1) as nat);
        }
    }

    /// An analysis whose trace stays within a finite set of symbols is done after
    /// some events.
    proof fn lemma_all_ends(self, analysis: AnalysisView, set: Set<(usize, Seq<char>)>) -> (steps:
        nat)
        requires
            set.finite(),
            holds_known(self.workspace, set),
            stays_within(analysis.trace, set),
        ensures
            self.run(analysis, steps).is_done(),
        decreases
            self.analysis_weight(analysis),
            set.difference(analysis.trace.visited).len(),
            self.world().trace_weight(analysis.trace),
    {
        if analysis.is_done() {
            0
        } else {
            let after = self.next(analysis);
            if analysis.waiting != WaitingView::Nothing {
                self.lemma_waiting_is_lighter(analysis, set);
                let rest = self.lemma_all_ends(after, set);
                self.lemma_first_event(analysis, rest);
                rest + 1
            } else if !analysis.trace.is_done() {
                self.lemma_trace_is_lighter(analysis, set);
                let rest = self.lemma_all_ends(after, set);
                self.lemma_first_event(analysis, rest);
                rest + 1
            } else {
                self.lemma_job_is_lighter(analysis);
                let next = lemma_set_of(self.workspace, after.trace);
                let rest = self.lemma_all_ends(after, next);
                self.lemma_first_event(analysis, rest);
                rest + 1
            }
        }
    }

    /// An analysis comes to an end: whatever the workspace holds and whatever is
    /// answered, there is a number of events after which all of its jobs and traces
    /// are done.
    pub proof fn law_analysis_ends(self, analysis: AnalysisView)
        ensures
            exists|steps: nat| (#[trigger] self.run(analysis, steps)).is_done(),
    {
        let set = lemma_set_of(self.workspace, analysis.trace);
        let steps = self.lemma_all_ends(analysis, set);
        assert(self.run(analysis, steps).is_done());
    }
}

/// Marks of changed dependencies leave a trace's tasks.
proof fn lemma_lockfile_tasks(
    workspace: WorkspaceView,
    index: IndexView,
    trace: TraceView,
    matches: Seq<ModuleMatch>,
    upto: nat,
)
    ensures
        ({
            let after = lockfile_marked(workspace, index, trace, matches, upto);
            &&& after.visited == trace.visited
            &&& after.roots == trace.roots
            &&& after.pending == trace.pending
            &&& after.asking == trace.asking
        }),
    decreases upto,
{
    if upto > 0 {
        lemma_lockfile_tasks(workspace, index, trace, matches, (upto - 1) as nat);
    }
}

} // verus!
