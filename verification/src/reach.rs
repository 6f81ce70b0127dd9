//! What a trace comes to: everything that the changed symbols lead to, and
//! nothing else.
use crate::causes::{all_pairs, lemma_pairs_appended};
use crate::semantic::analyzer::WorkspaceView;
use crate::trace::{
    export_targets, follows, import_causes, local_targets, reference_targets, symbols_of, visits,
    TaskView, TraceView,
};
use crate::types::{CauseView, ReferenceView};
use crate::utils::IndexView;
use vstd::prelude::*;

verus! {

/// What a trace goes by: the workspace, its projects, and the references to each
/// symbol in other files.
#[verifier::ext_equal]
pub struct World {
    pub workspace: WorkspaceView,
    pub index: IndexView,
    pub cross: spec_fn((usize, Seq<char>)) -> Seq<ReferenceView>,
}

impl World {
    /// Whether a change of symbol `n` is a change of symbol `m`: `m` refers to it
    /// in its file; or holds a reference to it in another file; or, where there is
    /// no such reference and `n` is not exported, is an export that refers to it.
    pub open spec fn leads_to(self, n: (usize, Seq<char>), m: (usize, Seq<char>)) -> bool {
        ||| symbols_of(n.0, local_targets(self.workspace, n)).contains(m)
        ||| (self.cross)(n).len() == 0 && symbols_of(
            n.0,
            export_targets(self.workspace, n),
        ).contains(m)
        ||| exists|k: int|
            0 <= k < (self.cross)(n).len() && reference_targets(
                self.workspace,
                #[trigger] (self.cross)(n)[k],
            ).contains(m)
    }

    /// Whether a set of symbols holds everything that its symbols lead to.
    pub open spec fn is_closed(self, set: Set<(usize, Seq<char>)>) -> bool {
        forall|n: (usize, Seq<char>), m: (usize, Seq<char>)|
            set.contains(n) && #[trigger] self.leads_to(n, m) ==> set.contains(m)
    }

    /// Whether a reference to symbol `n` marks a project.
    pub open spec fn marks(self, n: (usize, Seq<char>), project: Seq<char>) -> bool {
        exists|k: int|
            0 <= k < (self.cross)(n).len() && self.index.owners(
                (#[trigger] (self.cross)(n)[k]).file_path,
                false,
            ).contains(project)
    }

    /// Whether a reference to symbol `n` brings a cause for a project.
    pub open spec fn brings(
        self,
        n: (usize, Seq<char>),
        pair: (Seq<char>, CauseView),
    ) -> bool {
        exists|k: int|
            0 <= k < (self.cross)(n).len() && self.pairs_at(n, #[trigger] (self.cross)(n)[k]).contains(
                pair,
            )
    }

    /// The projects and causes of a reference to symbol `n`.
    pub open spec fn pairs_at(self, n: (usize, Seq<char>), reference: ReferenceView) -> Set<
        (Seq<char>, CauseView),
    > {
        all_pairs(
            self.index.owners(reference.file_path, false),
            import_causes(self.workspace, self.index, n, reference),
        )
    }

    /// The trace after a number of steps, in which every question is answered.
    pub open spec fn run(self, trace: TraceView, steps: nat) -> TraceView
        decreases steps,
    {
        if steps == 0 {
            trace
        } else {
            self.next(self.run(trace, (steps - 1) as nat))
        }
    }

    /// The trace after a step, in which a question is answered.
    pub open spec fn next(self, trace: TraceView) -> TraceView {
        match trace.asking {
            Some(n) => trace.answered(self.workspace, Some((self.cross)(n))),
            None => trace.stepped(self.workspace, self.index),
        }
    }

    /// Whether a symbol was traced or is going to be.
    pub open spec fn in_view(self, trace: TraceView, m: (usize, Seq<char>)) -> bool {
        trace.visited.contains(m) || trace.pending.contains(TaskView::Visit(m))
    }

    /// Whether all symbols of a list were traced or are going to be.
    pub open spec fn all_in_view(self, trace: TraceView, list: Seq<(usize, Seq<char>)>) -> bool {
        forall|m: (usize, Seq<char>)| list.contains(m) ==> #[trigger] self.in_view(trace, m)
    }

    /// Whether a reference to symbol `n` has had its effect.
    pub open spec fn is_followed(
        self,
        trace: TraceView,
        n: (usize, Seq<char>),
        reference: ReferenceView,
    ) -> bool {
        &&& forall|p: Seq<char>|
            self.index.owners(reference.file_path, false).contains(p)
                ==> #[trigger] trace.affected.contains(p)
        &&& trace.generate_report ==> forall|pair: (Seq<char>, CauseView)|
            self.pairs_at(n, reference).contains(pair) ==> #[trigger] trace.pairs().contains(pair)
        &&& self.all_in_view(trace, reference_targets(self.workspace, reference))
    }

    /// Whether the references to symbol `n` were found, and each has had its
    /// effect or is going to.
    pub open spec fn is_answered(self, trace: TraceView, n: (usize, Seq<char>)) -> bool {
        &&& (self.cross)(n).len() == 0 ==> self.all_in_view(
            trace,
            symbols_of(n.0, export_targets(self.workspace, n)),
        )
        &&& forall|k: int|
            0 <= k < (self.cross)(n).len() ==> trace.pending.contains(
                TaskView::Follow(n, #[trigger] (self.cross)(n)[k]),
            ) || self.is_followed(trace, n, (self.cross)(n)[k])
    }

    /// Whether everything that a traced symbol leads to was traced or is going to
    /// be.
    pub open spec fn is_served(self, trace: TraceView, n: (usize, Seq<char>)) -> bool {
        &&& self.all_in_view(trace, symbols_of(n.0, local_targets(self.workspace, n)))
        &&& trace.pending.contains(TaskView::Ask(n)) || trace.asking == Some(n)
            || self.is_answered(trace, n)
    }

    /// Whether nothing is forgotten in a trace from some roots.
    pub open spec fn forgets_nothing(
        self,
        trace: TraceView,
        roots: Seq<(usize, Seq<char>)>,
    ) -> bool {
        &&& forall|n: (usize, Seq<char>)|
            trace.visited.contains(n) ==> #[trigger] self.is_served(trace, n)
        &&& forall|n: (usize, Seq<char>)| #[trigger]
            roots.contains(n) ==> self.in_view(trace, n) || trace.roots.contains(n)
    }

    /// Whether a task of a trace is one that the traced symbols gave rise to,
    /// inside a closed set.
    pub open spec fn is_due(
        self,
        trace: TraceView,
        set: Set<(usize, Seq<char>)>,
        task: TaskView,
    ) -> bool {
        match task {
            TaskView::Visit(m) => set.contains(m),
            TaskView::Ask(n) => trace.visited.contains(n),
            TaskView::Follow(n, reference) => trace.visited.contains(n) && (self.cross)(n).contains(
                reference,
            ),
        }
    }

    /// Whether a trace has added nothing but what the symbols of a closed set give
    /// rise to.
    pub open spec fn adds_nothing_else(
        self,
        trace: TraceView,
        start: TraceView,
        set: Set<(usize, Seq<char>)>,
    ) -> bool {
        &&& trace.generate_report == start.generate_report
        &&& forall|n: (usize, Seq<char>)| #[trigger]
            trace.visited.contains(n) ==> set.contains(n)
        &&& forall|task: TaskView| #[trigger]
            trace.pending.contains(task) ==> self.is_due(trace, set, task)
        &&& forall|n: (usize, Seq<char>)| #[trigger] trace.roots.contains(n) ==> set.contains(n)
        &&& trace.asking matches Some(n) ==> trace.visited.contains(n)
        &&& forall|p: Seq<char>| #[trigger]
            start.affected.contains(p) ==> trace.affected.contains(p)
        &&& forall|p: Seq<char>| #[trigger]
            trace.affected.contains(p) ==> start.affected.contains(p) || self.some_marks(trace, p)
        &&& forall|pair: (Seq<char>, CauseView)| #[trigger]
            start.pairs().contains(pair) ==> trace.pairs().contains(pair)
        &&& forall|pair: (Seq<char>, CauseView)| #[trigger]
            trace.pairs().contains(pair) ==> start.pairs().contains(pair) || (trace.generate_report
                && self.some_brings(trace, pair))
    }

    /// Whether a reference to a traced symbol marks a project.
    pub open spec fn some_marks(self, trace: TraceView, p: Seq<char>) -> bool {
        exists|n: (usize, Seq<char>)| #[trigger] trace.visited.contains(n) && self.marks(n, p)
    }

    /// Whether a reference to a traced symbol brings a cause for a project.
    pub open spec fn some_brings(self, trace: TraceView, pair: (Seq<char>, CauseView)) -> bool {
        exists|n: (usize, Seq<char>)| #[trigger] trace.visited.contains(n) && self.brings(n, pair)
    }
}

/// A task of a list is its last or one of the rest.
pub proof fn lemma_last_or_rest(tasks: Seq<TaskView>, task: TaskView)
    requires
        tasks.len() > 0,
    ensures
        tasks.contains(task) == (task == tasks.last() || tasks.drop_last().contains(task)),
{
    let rest = tasks.drop_last();
    if tasks.contains(task) {
        let k = choose|k: int| 0 <= k < tasks.len() && tasks[k] == task;
        if k < rest.len() {
            assert(rest[k] == task);
        }
    }
    if rest.contains(task) {
        let k = choose|k: int| 0 <= k < rest.len() && rest[k] == task;
        assert(tasks[k] == task);
    }
    assert(tasks[tasks.len() - 1] == tasks.last());
}

/// A task of two lists is one of the first or of the second.
pub proof fn lemma_either(a: Seq<TaskView>, b: Seq<TaskView>, task: TaskView)
    ensures
        (a + b).contains(task) == (a.contains(task) || b.contains(task)),
{
    if a.contains(task) {
        let k = choose|k: int| 0 <= k < a.len() && a[k] == task;
        assert((a + b)[k] == task);
    }
    if b.contains(task) {
        let k = choose|k: int| 0 <= k < b.len() && b[k] == task;
        assert((a + b)[a.len() + k] == task);
    }
    if (a + b).contains(task) {
        let k = choose|k: int| 0 <= k < (a + b).len() && (a + b)[k] == task;
        if k < a.len() {
            assert(a[k] == task);
        } else {
            assert(b[k - a.len()] == task);
        }
    }
}

/// A list with one task more.
pub proof fn lemma_one_more(a: Seq<TaskView>, last: TaskView, task: TaskView)
    ensures
        a.push(last).contains(task) == (a.contains(task) || task == last),
{
    assert(a.push(last).drop_last() =~= a);
    lemma_last_or_rest(a.push(last), task);
}

/// The visits of symbols are tasks for each of them, and no other tasks.
pub proof fn lemma_visits(symbols: Seq<(usize, Seq<char>)>, task: TaskView)
    ensures
        visits(symbols).contains(task) == (task matches TaskView::Visit(m) && symbols.contains(m)),
{
    let list = visits(symbols);
    if list.contains(task) {
        let k = choose|k: int| 0 <= k < list.len() && list[k] == task;
        assert(list[k] == TaskView::Visit(symbols[symbols.len() - 1 - k]));
        assert(symbols.contains(symbols[symbols.len() - 1 - k]));
    }
    if let TaskView::Visit(m) = task {
        if symbols.contains(m) {
            let k = choose|k: int| 0 <= k < symbols.len() && symbols[k] == m;
            assert(list[symbols.len() - 1 - k] == task);
        }
    }
}

/// The follows of references are tasks for each of them, and no other tasks.
proof fn lemma_follows(
    symbol: (usize, Seq<char>),
    references: Seq<ReferenceView>,
    task: TaskView,
)
    ensures
        follows(symbol, references).contains(task) == (task matches TaskView::Follow(n, reference)
            && n == symbol && references.contains(reference)),
{
    let list = follows(symbol, references);
    if list.contains(task) {
        let k = choose|k: int| 0 <= k < list.len() && list[k] == task;
        assert(list[k] == TaskView::Follow(symbol, references[references.len() - 1 - k]));
        assert(references.contains(references[references.len() - 1 - k]));
    }
    if let TaskView::Follow(n, reference) = task {
        if n == symbol && references.contains(reference) {
            let k = choose|k: int| 0 <= k < references.len() && references[k] == reference;
            assert(list[references.len() - 1 - k] == task);
        }
    }
}

impl World {
    /// Whether a trace has lost nothing of what another has in view, and has
    /// followed what it no longer is going to.
    spec fn loses_nothing(self, before: TraceView, after: TraceView) -> bool {
        &&& after.generate_report == before.generate_report
        &&& forall|m: (usize, Seq<char>)| #[trigger]
            self.in_view(before, m) ==> self.in_view(after, m)
        &&& forall|p: Seq<char>| #[trigger]
            before.affected.contains(p) ==> after.affected.contains(p)
        &&& forall|pair: (Seq<char>, CauseView)| #[trigger]
            before.pairs().contains(pair) ==> after.pairs().contains(pair)
        &&& forall|n: (usize, Seq<char>), reference: ReferenceView|
            #[trigger] before.pending.contains(TaskView::Follow(n, reference))
                ==> after.pending.contains(TaskView::Follow(n, reference)) || self.is_followed(
                after,
                n,
                reference,
            )
    }

    /// What was answered stays answered.
    proof fn lemma_stays_answered(self, before: TraceView, after: TraceView, n: (usize, Seq<char>))
        requires
            self.loses_nothing(before, after),
            self.is_answered(before, n),
        ensures
            self.is_answered(after, n),
    {
        assert forall|k: int| 0 <= k < (self.cross)(n).len() implies after.pending.contains(
            TaskView::Follow(n, #[trigger] (self.cross)(n)[k]),
        ) || self.is_followed(after, n, (self.cross)(n)[k]) by {
            let reference = (self.cross)(n)[k];
            let task = TaskView::Follow(n, reference);
            if !before.pending.contains(task) {
                assert(self.is_followed(before, n, reference));
                assert(self.all_in_view(after, reference_targets(self.workspace, reference))) by {
                    assert forall|m: (usize, Seq<char>)|
                        reference_targets(self.workspace, reference).contains(
                            m,
                        ) implies #[trigger] self.in_view(after, m) by {
                        assert(self.in_view(before, m));
                    }
                }
                assert forall|p: Seq<char>|
                    self.index.owners(reference.file_path, false).contains(
                        p,
                    ) implies #[trigger] after.affected.contains(p) by {
                    assert(before.affected.contains(p));
                }
                if after.generate_report {
                    assert forall|pair: (Seq<char>, CauseView)|
                        self.pairs_at(n, reference).contains(
                            pair,
                        ) implies #[trigger] after.pairs().contains(pair) by {
                        assert(before.pairs().contains(pair));
                    }
                }
                assert(self.is_followed(after, n, reference));
            }
        }
        if (self.cross)(n).len() == 0 {
            let list = symbols_of(n.0, export_targets(self.workspace, n));
            assert forall|m: (usize, Seq<char>)| list.contains(m) implies #[trigger] self.in_view(
                after,
                m,
            ) by {
                assert(self.in_view(before, m));
            }
        }
    }

    /// What was served stays served, where its question is still open or
    /// answered.
    proof fn lemma_stays_served(self, before: TraceView, after: TraceView, n: (usize, Seq<char>))
        requires
            self.loses_nothing(before, after),
            self.is_served(before, n),
            before.pending.contains(TaskView::Ask(n)) || before.asking == Some(n)
                ==> after.pending.contains(TaskView::Ask(n)) || after.asking == Some(n)
                || self.is_answered(after, n),
        ensures
            self.is_served(after, n),
    {
        if self.is_answered(before, n) {
            self.lemma_stays_answered(before, after, n);
        }
        let list = symbols_of(n.0, local_targets(self.workspace, n));
        assert forall|m: (usize, Seq<char>)| list.contains(m) implies #[trigger] self.in_view(
            after,
            m,
        ) by {
            assert(self.in_view(before, m));
        }
    }

    /// A step forgets nothing.
    proof fn lemma_step_forgets_nothing(self, trace: TraceView, roots: Seq<(usize, Seq<char>)>)
        requires
            self.forgets_nothing(trace, roots),
            trace.asking is None,
        ensures
            self.forgets_nothing(trace.stepped(self.workspace, self.index), roots),
    {
        let after = trace.stepped(self.workspace, self.index);
        if trace.pending.len() > 0 {
            let rest = trace.pending.drop_last();
            let last = trace.pending.last();
            assert forall|task: TaskView| #[trigger]
                trace.pending.contains(task) implies task == last || after.pending.contains(task) by {
                lemma_last_or_rest(trace.pending, task);
                if rest.contains(task) {
                    self.lemma_rest_stays(trace, task);
                }
            }
            assert forall|m: (usize, Seq<char>)| #[trigger]
                self.in_view(trace, m) implies self.in_view(after, m) by {
                if trace.pending.contains(TaskView::Visit(m)) {
                    if TaskView::Visit(m) == last {
                        assert(after.visited.contains(m));
                    }
                }
            }
            match last {
                TaskView::Follow(symbol, reference) => {
                    self.lemma_follow_is_followed(trace, symbol, reference);
                    self.lemma_follow_pairs(trace, symbol, reference);
                },
                _ => {
                    assert(after.pairs() == trace.pairs());
                },
            }
            assert(self.loses_nothing(trace, after));
            assert forall|n: (usize, Seq<char>)|
                after.visited.contains(n) implies #[trigger] self.is_served(after, n) by {
                if trace.visited.contains(n) {
                    assert(self.is_served(trace, n));
                    if trace.pending.contains(TaskView::Ask(n)) {
                        if TaskView::Ask(n) == last {
                            assert(after.asking == Some(n));
                        }
                    }
                    self.lemma_stays_served(trace, after, n);
                } else {
                    let list = symbols_of(n.0, local_targets(self.workspace, n));
                    assert(last == TaskView::Visit(n));
                    let asked = rest.push(TaskView::Ask(n));
                    assert forall|m: (usize, Seq<char>)|
                        list.contains(m) implies #[trigger] self.in_view(after, m) by {
                        lemma_visits(list, TaskView::Visit(m));
                        lemma_either(asked, visits(list), TaskView::Visit(m));
                    }
                    lemma_one_more(rest, TaskView::Ask(n), TaskView::Ask(n));
                    lemma_either(asked, visits(list), TaskView::Ask(n));
                }
            }
            assert forall|n: (usize, Seq<char>)| #[trigger] roots.contains(n) implies self.in_view(
                after,
                n,
            ) || after.roots.contains(n) by {
                if self.in_view(trace, n) {
                    assert(self.in_view(after, n));
                }
            }
        } else if trace.roots.len() > 0 {
            let root = trace.roots.last();
            assert(after.pairs() == trace.pairs());
            assert(after.pending[0] == TaskView::Visit(root));
            assert(after.pending.contains(TaskView::Visit(root)));
            assert(self.loses_nothing(trace, after));
            assert forall|n: (usize, Seq<char>)|
                after.visited.contains(n) implies #[trigger] self.is_served(after, n) by {
                assert(self.is_served(trace, n));
                self.lemma_stays_served(trace, after, n);
            }
            assert forall|n: (usize, Seq<char>)| #[trigger] roots.contains(n) implies self.in_view(
                after,
                n,
            ) || after.roots.contains(n) by {
                if self.in_view(trace, n) {
                    assert(self.in_view(after, n));
                } else {
                    let k = choose|k: int| 0 <= k < trace.roots.len() && trace.roots[k] == n;
                    if k < after.roots.len() {
                        assert(after.roots[k] == n);
                    } else {
                        assert(n == root);
                    }
                }
            }
        }
    }

    /// The tasks below the last stay.
    proof fn lemma_rest_stays(self, trace: TraceView, task: TaskView)
        requires
            trace.pending.len() > 0,
            trace.pending.drop_last().contains(task),
        ensures
            trace.stepped(self.workspace, self.index).pending.contains(task),
    {
        let rest = trace.pending.drop_last();
        match trace.pending.last() {
            TaskView::Visit(symbol) => {
                let list = symbols_of(symbol.0, local_targets(self.workspace, symbol));
                lemma_one_more(rest, TaskView::Ask(symbol), task);
                lemma_either(rest.push(TaskView::Ask(symbol)), visits(list), task);
            },
            TaskView::Ask(symbol) => {},
            TaskView::Follow(symbol, reference) => {
                lemma_either(rest, visits(reference_targets(self.workspace, reference)), task);
            },
        }
    }

    /// What a reference that is followed brings.
    proof fn lemma_follow_pairs(
        self,
        trace: TraceView,
        symbol: (usize, Seq<char>),
        reference: ReferenceView,
    )
        requires
            trace.pending.len() > 0,
            trace.pending.last() == TaskView::Follow(symbol, reference),
        ensures
            trace.stepped(self.workspace, self.index).pairs() == if trace.generate_report {
                trace.pairs() + self.pairs_at(symbol, reference)
            } else {
                trace.pairs()
            },
    {
        lemma_pairs_appended(
            trace.causes,
            self.index.owners(reference.file_path, false),
            import_causes(self.workspace, self.index, symbol, reference),
        );
    }

    /// A reference that is followed has had its effect.
    proof fn lemma_follow_is_followed(
        self,
        trace: TraceView,
        symbol: (usize, Seq<char>),
        reference: ReferenceView,
    )
        requires
            trace.pending.len() > 0,
            trace.pending.last() == TaskView::Follow(symbol, reference),
        ensures
            self.is_followed(trace.stepped(self.workspace, self.index), symbol, reference),
    {
        let after = trace.stepped(self.workspace, self.index);
        let rest = trace.pending.drop_last();
        let list = reference_targets(self.workspace, reference);
        self.lemma_follow_pairs(trace, symbol, reference);
        assert forall|m: (usize, Seq<char>)| list.contains(m) implies #[trigger] self.in_view(
            after,
            m,
        ) by {
            lemma_visits(list, TaskView::Visit(m));
            lemma_either(rest, visits(list), TaskView::Visit(m));
        }
        let owners = self.index.owners(reference.file_path, false);
        assert forall|p: Seq<char>| owners.contains(
            p,
        ) implies #[trigger] after.affected.contains(p) by {
            assert(owners.to_set().contains(p));
        }
    }

    /// An answer forgets nothing.
    proof fn lemma_answer_forgets_nothing(
        self,
        trace: TraceView,
        roots: Seq<(usize, Seq<char>)>,
        n: (usize, Seq<char>),
    )
        requires
            self.forgets_nothing(trace, roots),
            trace.asking == Some(n),
        ensures
            self.forgets_nothing(
                trace.answered(self.workspace, Some((self.cross)(n))),
                roots,
            ),
    {
        let found = (self.cross)(n);
        let after = trace.answered(self.workspace, Some(found));
        assert(after.pairs() == trace.pairs());
        let list = symbols_of(n.0, export_targets(self.workspace, n));
        assert forall|task: TaskView| #[trigger]
            trace.pending.contains(task) implies after.pending.contains(task) by {
            lemma_either(trace.pending, visits(list), task);
            lemma_either(trace.pending, follows(n, found), task);
        }
        assert(self.loses_nothing(trace, after)) by {
            assert forall|m: (usize, Seq<char>)| #[trigger]
                self.in_view(trace, m) implies self.in_view(after, m) by {
                if trace.pending.contains(TaskView::Visit(m)) {
                    assert(after.pending.contains(TaskView::Visit(m)));
                }
            }
        }
        assert(self.is_answered(after, n)) by {
            if found.len() == 0 {
                assert forall|m: (usize, Seq<char>)|
                    list.contains(m) implies #[trigger] self.in_view(after, m) by {
                    lemma_visits(list, TaskView::Visit(m));
                    lemma_either(trace.pending, visits(list), TaskView::Visit(m));
                }
            }
            assert forall|k: int| 0 <= k < found.len() implies after.pending.contains(
                TaskView::Follow(n, #[trigger] found[k]),
            ) by {
                lemma_follows(n, found, TaskView::Follow(n, found[k]));
                lemma_either(trace.pending, follows(n, found), TaskView::Follow(n, found[k]));
                assert(found.contains(found[k]));
            }
        }
        assert forall|x: (usize, Seq<char>)|
            after.visited.contains(x) implies #[trigger] self.is_served(after, x) by {
            assert(self.is_served(trace, x));
            if trace.pending.contains(TaskView::Ask(x)) {
                assert(after.pending.contains(TaskView::Ask(x)));
            }
            self.lemma_stays_served(trace, after, x);
        }
        assert forall|x: (usize, Seq<char>)| #[trigger] roots.contains(x) implies self.in_view(
            after,
            x,
        ) || after.roots.contains(x) by {
            if self.in_view(trace, x) {
                assert(self.in_view(after, x));
            }
        }
    }
}

impl World {
    /// A step adds nothing else.
    proof fn lemma_step_adds_nothing_else(
        self,
        trace: TraceView,
        start: TraceView,
        set: Set<(usize, Seq<char>)>,
    )
        requires
            self.adds_nothing_else(trace, start, set),
            self.is_closed(set),
            trace.asking is None,
        ensures
            self.adds_nothing_else(trace.stepped(self.workspace, self.index), start, set),
    {
        let after = trace.stepped(self.workspace, self.index);
        if trace.pending.len() > 0 {
            let rest = trace.pending.drop_last();
            let last = trace.pending.last();
            lemma_last_or_rest(trace.pending, last);
            assert(self.is_due(trace, set, last));
            assert forall|task: TaskView| #[trigger] rest.contains(task) implies self.is_due(
                after,
                set,
                task,
            ) by {
                lemma_last_or_rest(trace.pending, task);
                assert(self.is_due(trace, set, task));
            }
            match last {
                TaskView::Visit(symbol) => {
                    assert(after.pairs() == trace.pairs());
                    if !trace.visited.contains(symbol) {
                        let list = symbols_of(symbol.0, local_targets(self.workspace, symbol));
                        let asked = rest.push(TaskView::Ask(symbol));
                        assert forall|task: TaskView| #[trigger]
                            after.pending.contains(task) implies self.is_due(after, set, task) by {
                            lemma_either(asked, visits(list), task);
                            lemma_one_more(rest, TaskView::Ask(symbol), task);
                            lemma_visits(list, task);
                            if let TaskView::Visit(m) = task {
                                if list.contains(m) {
                                    assert(self.leads_to(symbol, m));
                                }
                            }
                        }
                    }
                },
                TaskView::Ask(symbol) => {
                    assert(after.pairs() == trace.pairs());
                },
                TaskView::Follow(symbol, reference) => {
                    self.lemma_follow_pairs(trace, symbol, reference);
                    self.lemma_follow_adds_nothing_else(trace, start, set, symbol, reference);
                },
            }
            assert forall|p: Seq<char>| #[trigger]
                after.affected.contains(p) implies start.affected.contains(p) || self.some_marks(
                after,
                p,
            ) by {
                if trace.affected.contains(p) && self.some_marks(trace, p) {
                    let n = choose|n: (usize, Seq<char>)| #[trigger]
                        trace.visited.contains(n) && self.marks(n, p);
                    assert(after.visited.contains(n));
                }
            }
            assert forall|pair: (Seq<char>, CauseView)| #[trigger]
                after.pairs().contains(pair) implies start.pairs().contains(pair) || (
            after.generate_report && self.some_brings(after, pair)) by {
                if trace.pairs().contains(pair) && self.some_brings(trace, pair) {
                    let n = choose|n: (usize, Seq<char>)| #[trigger]
                        trace.visited.contains(n) && self.brings(n, pair);
                    assert(after.visited.contains(n));
                }
            }
        } else if trace.roots.len() > 0 {
            let root = trace.roots.last();
            assert(after.pairs() == trace.pairs());
            assert(trace.roots[trace.roots.len() - 1] == root);
            assert(trace.roots.contains(root));
            assert forall|task: TaskView| #[trigger] after.pending.contains(task) implies self.is_due(
                after,
                set,
                task,
            ) by {
                let k = choose|k: int| 0 <= k < after.pending.len() && after.pending[k] == task;
                assert(task == TaskView::Visit(root));
            }
            assert forall|n: (usize, Seq<char>)| #[trigger]
                after.roots.contains(n) implies set.contains(n) by {
                let k = choose|k: int| 0 <= k < after.roots.len() && after.roots[k] == n;
                assert(trace.roots[k] == n);
                assert(trace.roots.contains(n));
            }
            assert forall|p: Seq<char>| #[trigger]
                after.affected.contains(p) implies start.affected.contains(p) || self.some_marks(
                after,
                p,
            ) by {
                if self.some_marks(trace, p) {
                    let n = choose|n: (usize, Seq<char>)| #[trigger]
                        trace.visited.contains(n) && self.marks(n, p);
                    assert(after.visited.contains(n));
                }
            }
            assert forall|pair: (Seq<char>, CauseView)| #[trigger]
                after.pairs().contains(pair) implies start.pairs().contains(pair) || (
            after.generate_report && self.some_brings(after, pair)) by {
                if self.some_brings(trace, pair) {
                    let n = choose|n: (usize, Seq<char>)| #[trigger]
                        trace.visited.contains(n) && self.brings(n, pair);
                    assert(after.visited.contains(n));
                }
            }
        }
    }

    /// Following a reference adds nothing but what it marks and leads to.
    proof fn lemma_follow_adds_nothing_else(
        self,
        trace: TraceView,
        start: TraceView,
        set: Set<(usize, Seq<char>)>,
        symbol: (usize, Seq<char>),
        reference: ReferenceView,
    )
        requires
            self.adds_nothing_else(trace, start, set),
            self.is_closed(set),
            trace.pending.len() > 0,
            trace.pending.last() == TaskView::Follow(symbol, reference),
            trace.visited.contains(symbol),
            (self.cross)(symbol).contains(reference),
        ensures
            ({
                let after = trace.stepped(self.workspace, self.index);
                &&& forall|task: TaskView| #[trigger]
                    after.pending.contains(task) ==> self.is_due(after, set, task)
                &&& forall|p: Seq<char>| #[trigger]
                    after.affected.contains(p) ==> trace.affected.contains(p) || self.some_marks(
                        after,
                        p,
                    )
                &&& forall|pair: (Seq<char>, CauseView)| #[trigger]
                    after.pairs().contains(pair) ==> trace.pairs().contains(pair) || (
                    after.generate_report && self.some_brings(after, pair))
            }),
    {
        let after = trace.stepped(self.workspace, self.index);
        let rest = trace.pending.drop_last();
        let list = reference_targets(self.workspace, reference);
        let found = (self.cross)(symbol);
        self.lemma_follow_pairs(trace, symbol, reference);
        let k = choose|k: int| 0 <= k < found.len() && found[k] == reference;
        assert(found[k] == reference);
        assert(set.contains(symbol));
        assert forall|task: TaskView| #[trigger] after.pending.contains(task) implies self.is_due(
            after,
            set,
            task,
        ) by {
            lemma_either(rest, visits(list), task);
            lemma_visits(list, task);
            if rest.contains(task) {
                lemma_last_or_rest(trace.pending, task);
                assert(self.is_due(trace, set, task));
            } else {
                let m = task->Visit_0;
                assert(reference_targets(self.workspace, found[k]).contains(m));
                assert(self.leads_to(symbol, m));
            }
        }
        let owners = self.index.owners(reference.file_path, false);
        assert forall|p: Seq<char>| #[trigger] after.affected.contains(
            p,
        ) implies trace.affected.contains(p) || self.some_marks(after, p) by {
            if !trace.affected.contains(p) {
                assert(owners.to_set().contains(p));
                assert(self.index.owners(found[k].file_path, false).contains(p));
                assert(self.marks(symbol, p));
                assert(after.visited.contains(symbol));
            }
        }
        assert forall|pair: (Seq<char>, CauseView)| #[trigger] after.pairs().contains(
            pair,
        ) implies trace.pairs().contains(pair) || (after.generate_report && self.some_brings(
            after,
            pair,
        )) by {
            if !trace.pairs().contains(pair) {
                assert(self.pairs_at(symbol, found[k]).contains(pair));
                assert(self.brings(symbol, pair));
                assert(after.visited.contains(symbol));
            }
        }
    }

    /// An answer adds nothing else.
    proof fn lemma_answer_adds_nothing_else(
        self,
        trace: TraceView,
        start: TraceView,
        set: Set<(usize, Seq<char>)>,
        n: (usize, Seq<char>),
    )
        requires
            self.adds_nothing_else(trace, start, set),
            self.is_closed(set),
            trace.asking == Some(n),
        ensures
            self.adds_nothing_else(
                trace.answered(self.workspace, Some((self.cross)(n))),
                start,
                set,
            ),
    {
        let found = (self.cross)(n);
        let after = trace.answered(self.workspace, Some(found));
        assert(after.pairs() == trace.pairs());
        let list = symbols_of(n.0, export_targets(self.workspace, n));
        assert forall|task: TaskView| #[trigger] after.pending.contains(task) implies self.is_due(
            after,
            set,
            task,
        ) by {
            lemma_either(trace.pending, visits(list), task);
            lemma_either(trace.pending, follows(n, found), task);
            lemma_visits(list, task);
            lemma_follows(n, found, task);
            if trace.pending.contains(task) {
                assert(self.is_due(trace, set, task));
            } else if let TaskView::Visit(m) = task {
                assert(self.leads_to(n, m));
            }
        }
        assert forall|p: Seq<char>| #[trigger] after.affected.contains(
            p,
        ) implies start.affected.contains(p) || self.some_marks(after, p) by {
            if self.some_marks(trace, p) {
                let x = choose|x: (usize, Seq<char>)| #[trigger]
                    trace.visited.contains(x) && self.marks(x, p);
                assert(after.visited.contains(x));
            }
        }
        assert forall|pair: (Seq<char>, CauseView)| #[trigger] after.pairs().contains(
            pair,
        ) implies start.pairs().contains(pair) || (after.generate_report && self.some_brings(
            after,
            pair,
        )) by {
            if self.some_brings(trace, pair) {
                let x = choose|x: (usize, Seq<char>)| #[trigger]
                    trace.visited.contains(x) && self.brings(x, pair);
                assert(after.visited.contains(x));
            }
        }
    }

    /// A run forgets nothing and adds nothing else.
    proof fn lemma_run(
        self,
        start: TraceView,
        roots: Seq<(usize, Seq<char>)>,
        steps: nat,
        set: Set<(usize, Seq<char>)>,
    )
        requires
            self.is_closed(set),
            forall|n: (usize, Seq<char>)| #[trigger] roots.contains(n) ==> set.contains(n),
        ensures
            self.forgets_nothing(self.run(start.begun(roots), steps), roots),
            self.adds_nothing_else(self.run(start.begun(roots), steps), start, set),
        decreases steps,
    {
        if steps == 0 {
            let begun = start.begun(roots);
            assert(begun.pairs() == start.pairs());
            assert forall|n: (usize, Seq<char>)| begun.roots.contains(n) == #[trigger] roots.contains(
                n,
            ) by {
                let list = begun.roots;
                if roots.contains(n) {
                    let k = choose|k: int| 0 <= k < roots.len() && roots[k] == n;
                    assert(list[roots.len() - 1 - k] == n);
                }
                if list.contains(n) {
                    let k = choose|k: int| 0 <= k < list.len() && list[k] == n;
                    assert(roots[roots.len() - 1 - k] == n);
                }
            }
            assert forall|n: (usize, Seq<char>)| #[trigger]
                begun.roots.contains(n) implies set.contains(n) by {
                assert(roots.contains(n));
            }
        } else {
            self.lemma_run(start, roots, (steps - 1) as nat, set);
            let before = self.run(start.begun(roots), (steps - 1) as nat);
            match before.asking {
                Some(n) => {
                    self.lemma_answer_forgets_nothing(before, roots, n);
                    self.lemma_answer_adds_nothing_else(before, start, set, n);
                },
                None => {
                    self.lemma_step_forgets_nothing(before, roots);
                    self.lemma_step_adds_nothing_else(before, start, set);
                },
            }
        }
    }

    /// When a trace is done, the symbols that it has traced are exactly those
    /// that its roots lead to: they hold the roots and everything that one of
    /// them leads to, and are part of any set of symbols that does.
    pub proof fn law_trace_visits_what_roots_lead_to(
        self,
        start: TraceView,
        roots: Seq<(usize, Seq<char>)>,
        steps: nat,
        set: Set<(usize, Seq<char>)>,
    )
        requires
            self.run(start.begun(roots), steps).is_done(),
            self.is_closed(set),
            forall|n: (usize, Seq<char>)| #[trigger] roots.contains(n) ==> set.contains(n),
        ensures
            self.is_closed(self.run(start.begun(roots), steps).visited),
            forall|n: (usize, Seq<char>)| #[trigger]
                roots.contains(n) ==> self.run(start.begun(roots), steps).visited.contains(n),
            self.run(start.begun(roots), steps).visited.subset_of(set),
    {
        let end = self.run(start.begun(roots), steps);
        self.lemma_run(start, roots, steps, set);
        assert forall|task: TaskView| !end.pending.contains(task) by {}
        assert forall|n: (usize, Seq<char>)| #[trigger]
            roots.contains(n) implies end.visited.contains(n) by {
            assert(self.in_view(end, n) || end.roots.contains(n));
        }
        assert forall|n: (usize, Seq<char>), m: (usize, Seq<char>)|
            end.visited.contains(n) && #[trigger] self.leads_to(n, m) implies end.visited.contains(
            m,
        ) by {
            self.lemma_end_is_closed(end, roots, n, m);
        }
        assert forall|n: (usize, Seq<char>)| end.visited.contains(n) implies set.contains(n) by {}
    }

    /// Where nothing is pending, what a traced symbol leads to was traced.
    proof fn lemma_end_is_closed(
        self,
        end: TraceView,
        roots: Seq<(usize, Seq<char>)>,
        n: (usize, Seq<char>),
        m: (usize, Seq<char>),
    )
        requires
            self.forgets_nothing(end, roots),
            end.is_done(),
            end.visited.contains(n),
            self.leads_to(n, m),
        ensures
            end.visited.contains(m),
    {
        assert(!end.pending.contains(TaskView::Visit(m)));
        assert(!end.pending.contains(TaskView::Ask(n)));
        assert(self.is_served(end, n));
        assert(self.is_answered(end, n));
        if symbols_of(n.0, local_targets(self.workspace, n)).contains(m) {
            assert(self.in_view(end, m));
        } else if (self.cross)(n).len() == 0 && symbols_of(
            n.0,
            export_targets(self.workspace, n),
        ).contains(m) {
            assert(self.in_view(end, m));
        } else {
            let k = choose|k: int|
                0 <= k < (self.cross)(n).len() && reference_targets(
                    self.workspace,
                    #[trigger] (self.cross)(n)[k],
                ).contains(m);
            let reference = (self.cross)(n)[k];
            assert(!end.pending.contains(TaskView::Follow(n, reference)));
            assert(self.is_followed(end, n, reference));
            assert(self.in_view(end, m));
        }
    }

    /// When a trace is done, the affected projects are exactly those that were
    /// affected before and those in which a traced symbol is referred to; and so
    /// it is with the causes of each, where they are recorded.
    pub proof fn law_trace_marks_referring_projects(
        self,
        start: TraceView,
        roots: Seq<(usize, Seq<char>)>,
        steps: nat,
    )
        requires
            self.run(start.begun(roots), steps).is_done(),
        ensures
            forall|p: Seq<char>| #[trigger]
                self.run(start.begun(roots), steps).affected.contains(p) == (
                start.affected.contains(p) || self.some_marks(
                    self.run(start.begun(roots), steps),
                    p,
                )),
            forall|pair: (Seq<char>, CauseView)| #[trigger]
                self.run(start.begun(roots), steps).pairs().contains(pair) == (
                start.pairs().contains(pair) || (start.generate_report && self.some_brings(
                    self.run(start.begun(roots), steps),
                    pair,
                ))),
    {
        let end = self.run(start.begun(roots), steps);
        let all = Set::<(usize, Seq<char>)>::full();
        self.lemma_run(start, roots, steps, all);
        assert forall|n: (usize, Seq<char>), k: int|
            end.visited.contains(n) && 0 <= k < (self.cross)(n).len() implies self.is_followed(
            end,
            n,
            #[trigger] (self.cross)(n)[k],
        ) by {
            assert(!end.pending.contains(TaskView::Ask(n)));
            assert(self.is_served(end, n));
            assert(self.is_answered(end, n));
            assert(!end.pending.contains(TaskView::Follow(n, (self.cross)(n)[k])));
        }
        assert forall|p: Seq<char>| #[trigger] end.affected.contains(p) == (
        start.affected.contains(p) || self.some_marks(end, p)) by {
            if self.some_marks(end, p) {
                let n = choose|n: (usize, Seq<char>)| #[trigger]
                    end.visited.contains(n) && self.marks(n, p);
                let k = choose|k: int|
                    0 <= k < (self.cross)(n).len() && self.index.owners(
                        (#[trigger] (self.cross)(n)[k]).file_path,
                        false,
                    ).contains(p);
                assert(self.is_followed(end, n, (self.cross)(n)[k]));
            }
        }
        assert forall|pair: (Seq<char>, CauseView)| #[trigger] end.pairs().contains(pair) == (
        start.pairs().contains(pair) || (start.generate_report && self.some_brings(end, pair))) by {
            if start.generate_report && self.some_brings(end, pair) {
                let n = choose|n: (usize, Seq<char>)| #[trigger]
                    end.visited.contains(n) && self.brings(n, pair);
                let k = choose|k: int|
                    0 <= k < (self.cross)(n).len() && self.pairs_at(
                        n,
                        #[trigger] (self.cross)(n)[k],
                    ).contains(pair);
                assert(self.is_followed(end, n, (self.cross)(n)[k]));
            }
        }
    }
}

} // verus!
