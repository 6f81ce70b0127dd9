//! Tracing a changed symbol through the files that refer to it.
//!
//! A trace is a machine: a step either goes on by itself or asks for the
//! references to a symbol in other files, which the caller looks up and hands
//! back.
use crate::causes::{
    all_appended, cause_pairs, explanations, list_of, occurrences, repeated, reports_all, sorted,
    CauseLog,
};
use crate::fx::{
    contains_name, in_order, insert_name, insert_node, list_names, names_in, no_names, no_nodes,
    nodes_in,
};
use crate::semantic::analyzer::{
    all_local_references, exports_using, file_number, is_exported, local_export_name,
    names_around, reference_views, AnalyzedFile, AnalyzedView, FileView, WorkspaceAnalyzer,
    WorkspaceView,
};
use crate::text::{byte_len, same, texts};
use crate::types::{
    cause_views, AffectCause, AffectedProjectInfo, CauseView, Export, ExportView, Reference,
    ReferenceView,
};
use crate::utils::{lemma_set_push, IndexView, ProjectIndex};
use rustc_hash::FxHashSet;
use vstd::prelude::*;

verus! {

/// What is to be done in a trace.
pub enum Task {
    /// Trace a symbol of a file, unless that was done.
    Visit(usize, String),
    /// Ask for the references to a symbol of a file in other files.
    Ask(usize, String),
    /// Go on at a reference, in another file, to a symbol of a file.
    Follow(usize, String, Reference),
}

/// What a [`Task`] stands for; a symbol is a file's number and a name.
#[verifier::ext_equal]
pub enum TaskView {
    Visit((usize, Seq<char>)),
    Ask((usize, Seq<char>)),
    Follow((usize, Seq<char>), ReferenceView),
}

impl View for Task {
    type V = TaskView;

    open spec fn view(&self) -> TaskView {
        match self {
            Task::Visit(file, symbol) => TaskView::Visit((*file, symbol@)),
            Task::Ask(file, symbol) => TaskView::Ask((*file, symbol@)),
            Task::Follow(file, symbol, reference) => TaskView::Follow(
                (*file, symbol@),
                reference@,
            ),
        }
    }
}

/// What a list of tasks stands for.
pub open spec fn task_views(tasks: Seq<Task>) -> Seq<TaskView> {
    tasks.map_values(|task: Task| task@)
}

/// What a list of symbols stands for.
pub open spec fn symbol_pairs(symbols: Seq<(usize, String)>) -> Seq<(usize, Seq<char>)> {
    symbols.map_values(|symbol: (usize, String)| (symbol.0, symbol.1@))
}

/// Mutable state for tracking affected symbols during analysis
pub struct AffectedState {
    generate_report: bool,
    affected_packages: FxHashSet<String>,
    project_causes: CauseLog,
    /// Causes that count for projects that have no others.
    spare_causes: CauseLog,
    visited: FxHashSet<(usize, String)>,
    /// The symbols that are still to be traced from; the last comes next.
    roots: Vec<(usize, String)>,
    /// What is still to be done for the current root; the last comes next.
    pending: Vec<Task>,
    /// The symbol whose references in other files are asked for.
    asking: Option<(usize, String)>,
}

/// What an [`AffectedState`] stands for.
#[verifier::ext_equal]
pub struct TraceView {
    pub generate_report: bool,
    /// The names of the affected projects.
    pub affected: Set<Seq<char>>,
    /// The causes of each project that has some, in the order of their coming.
    pub causes: Map<Seq<char>, Seq<CauseView>>,
    /// Causes that count for projects that have no others.
    pub spare: Map<Seq<char>, Seq<CauseView>>,
    pub visited: Set<(usize, Seq<char>)>,
    pub roots: Seq<(usize, Seq<char>)>,
    pub pending: Seq<TaskView>,
    pub asking: Option<(usize, Seq<char>)>,
}

/// The symbol in an optional pair.
pub open spec fn symbol_in(symbol: Option<(usize, String)>) -> Option<(usize, Seq<char>)> {
    match symbol {
        Some(pair) => Some((pair.0, pair.1@)),
        None => None,
    }
}

impl View for AffectedState {
    type V = TraceView;

    closed spec fn view(&self) -> TraceView {
        TraceView {
            generate_report: self.generate_report,
            affected: names_in(&self.affected_packages),
            causes: self.project_causes@,
            spare: self.spare_causes@,
            visited: nodes_in(&self.visited),
            roots: symbol_pairs(self.roots@),
            pending: task_views(self.pending@),
            asking: symbol_in(self.asking),
        }
    }
}

/// The names that are not the given one.
pub open spec fn other_names(names: Seq<Seq<char>>, name: Seq<char>) -> Seq<Seq<char>>
    decreases names.len(),
{
    if names.len() == 0 {
        Seq::empty()
    } else {
        let before = other_names(names.drop_last(), name);
        if names.last() == name {
            before
        } else {
            before.push(names.last())
        }
    }
}

/// The declarations, other than the symbol's own, that hold the first `upto` of
/// the references to a symbol in its file.
pub open spec fn holders(
    file: FileView,
    references: Seq<ReferenceView>,
    symbol: Seq<char>,
    upto: nat,
) -> Seq<Seq<char>>
    decreases upto,
{
    if upto == 0 {
        Seq::empty()
    } else {
        holders(file, references, symbol, (upto - 1) as nat) + other_names(
            names_around(file, references[upto - 1]),
            symbol,
        )
    }
}

/// The declarations of a file that refer to one of its symbols.
pub open spec fn local_holders(file: AnalyzedView, symbol: Seq<char>) -> Seq<Seq<char>> {
    let references = all_local_references(file.file_data, file.relative_path, symbol);
    holders(file.file_data, references, symbol, references.len())
}

/// The declarations that refer to a symbol in its file.
pub open spec fn local_targets(workspace: WorkspaceView, symbol: (usize, Seq<char>)) -> Seq<
    Seq<char>,
> {
    if symbol.0 < workspace.files.len() {
        local_holders(workspace.files[symbol.0 as int], symbol.1)
    } else {
        Seq::empty()
    }
}

/// The exported declarations that refer to a symbol in its file, where the
/// symbol is not exported itself.
pub open spec fn export_targets(workspace: WorkspaceView, symbol: (usize, Seq<char>)) -> Seq<
    Seq<char>,
> {
    if symbol.0 < workspace.files.len() && !is_exported(
        workspace.files[symbol.0 as int],
        symbol.1,
    ) {
        exports_using(workspace.files[symbol.0 as int], symbol.1)
    } else {
        Seq::empty()
    }
}

/// What the first `upto` exports export from their own file.
pub open spec fn own_exports(exports: Seq<ExportView>, upto: nat) -> Seq<Seq<char>>
    decreases upto,
{
    if upto == 0 {
        Seq::empty()
    } else {
        let before = own_exports(exports, (upto - 1) as nat);
        if exports[upto - 1].re_export_from is None {
            before.push(local_export_name(exports[upto - 1]))
        } else {
            before
        }
    }
}

/// Whether a reference stands for its whole file.
pub open spec fn is_whole_file(reference: ReferenceView) -> bool {
    reference.line == 0 && reference.column == 0
}

/// The declarations of a file that a reference in it belongs to: all that it
/// exports, where the reference stands for the whole file.
pub open spec fn reference_names(file: AnalyzedView, reference: ReferenceView) -> Seq<Seq<char>> {
    if is_whole_file(reference) {
        own_exports(file.exports, file.exports.len())
    } else {
        names_around(file.file_data, reference)
    }
}

/// The symbols that a change goes on to from a reference.
pub open spec fn reference_targets(workspace: WorkspaceView, reference: ReferenceView) -> Seq<
    (usize, Seq<char>),
> {
    match file_number(workspace.files, reference.file_path, 0) {
        Some(file) => symbols_of(
            file as usize,
            reference_names(workspace.files[file], reference),
        ),
        None => Seq::empty(),
    }
}

/// The symbols with the given names of a file.
pub open spec fn symbols_of(file: usize, names: Seq<Seq<char>>) -> Seq<(usize, Seq<char>)> {
    names.map_values(|name: Seq<char>| (file, name))
}

/// The tasks to visit symbols; the first comes last.
pub open spec fn visits(symbols: Seq<(usize, Seq<char>)>) -> Seq<TaskView> {
    symbols.map_values(|symbol: (usize, Seq<char>)| TaskView::Visit(symbol)).reverse()
}

/// The tasks to follow the references to a symbol; the first comes last.
pub open spec fn follows(symbol: (usize, Seq<char>), references: Seq<ReferenceView>) -> Seq<
    TaskView,
> {
    references.map_values(
        |reference: ReferenceView| TaskView::Follow(symbol, reference),
    ).reverse()
}

/// The path of a symbol's file.
pub open spec fn path_of_symbol(workspace: WorkspaceView, symbol: (usize, Seq<char>)) -> Seq<char> {
    if symbol.0 < workspace.files.len() {
        workspace.files[symbol.0 as int].relative_path
    } else {
        Seq::empty()
    }
}

/// The causes that a reference to a symbol brings, where the symbol comes from the
/// given projects: one for each.
pub open spec fn imported_from(
    workspace: WorkspaceView,
    projects: Seq<Seq<char>>,
    symbol: (usize, Seq<char>),
    reference: ReferenceView,
) -> Seq<CauseView> {
    projects.map_values(
        |project: Seq<char>|
            CauseView::ImportedSymbol {
                source_project: project,
                symbol: symbol.1,
                via_file: reference.file_path,
                source_file: path_of_symbol(workspace, symbol),
            },
    )
}

/// The causes that a reference to a symbol brings: one for each project that the
/// symbol's file counts for.
pub open spec fn import_causes(
    workspace: WorkspaceView,
    index: IndexView,
    symbol: (usize, Seq<char>),
    reference: ReferenceView,
) -> Seq<CauseView> {
    let projects = index.owners(path_of_symbol(workspace, symbol), false);
    imported_from(workspace, projects, symbol, reference)
}

/// The projects that a file which counts for none still belongs to: those that own
/// it, or one without a name where there is none.
pub open spec fn spare_projects(index: IndexView, source_file: Seq<char>) -> Seq<Seq<char>> {
    let owners = index.owners(source_file, true);
    if owners.len() == 0 {
        seq![Seq::empty()]
    } else {
        owners
    }
}

/// The causes that a reference to a symbol holds ready for projects that have no
/// others, where the symbol's file counts for no project.
pub open spec fn spare_causes(
    workspace: WorkspaceView,
    index: IndexView,
    symbol: (usize, Seq<char>),
    reference: ReferenceView,
) -> Seq<CauseView> {
    let source_file = path_of_symbol(workspace, symbol);
    if index.owners(source_file, false).len() > 0 {
        Seq::empty()
    } else {
        imported_from(workspace, spare_projects(index, source_file), symbol, reference)
    }
}

impl TraceView {
    /// The trace with projects marked as affected, each for the given causes.
    pub open spec fn marked(self, projects: Seq<Seq<char>>, causes: Seq<CauseView>) -> TraceView {
        TraceView {
            affected: self.affected + projects.to_set(),
            causes: if self.generate_report {
                all_appended(self.causes, projects, causes)
            } else {
                self.causes
            },
            ..self
        }
    }

    /// The trace with causes held ready for projects, in case they have no others.
    pub open spec fn spared(self, projects: Seq<Seq<char>>, causes: Seq<CauseView>) -> TraceView {
        TraceView {
            spare: if self.generate_report {
                all_appended(self.spare, projects, causes)
            } else {
                self.spare
            },
            ..self
        }
    }

    /// The pairs of a project and a cause of it.
    pub open spec fn pairs(self) -> Set<(Seq<char>, CauseView)> {
        cause_pairs(self.causes)
    }

    /// The causes that explain each project: its own, or those held ready where it
    /// has none.
    pub open spec fn explanations(self) -> Map<Seq<char>, Seq<CauseView>> {
        explanations(self.causes, self.spare)
    }

    /// The trace after a reference to a symbol marked the projects that it stands
    /// in.
    pub open spec fn reference_marked(
        self,
        workspace: WorkspaceView,
        index: IndexView,
        symbol: (usize, Seq<char>),
        reference: ReferenceView,
    ) -> TraceView {
        let owners = index.owners(reference.file_path, false);
        self.marked(owners, import_causes(workspace, index, symbol, reference)).spared(
            owners,
            spare_causes(workspace, index, symbol, reference),
        )
    }

    /// Whether nothing is left to be done.
    pub open spec fn is_done(self) -> bool {
        self.roots.len() == 0 && self.pending.len() == 0 && self.asking is None
    }

    /// The trace after a step by itself.
    pub open spec fn stepped(self, workspace: WorkspaceView, index: IndexView) -> TraceView {
        if self.pending.len() > 0 {
            let rest = self.pending.drop_last();
            match self.pending.last() {
                TaskView::Visit(symbol) => if self.visited.contains(symbol) {
                    TraceView { pending: rest, ..self }
                } else {
                    TraceView {
                        visited: self.visited.insert(symbol),
                        pending: rest.push(TaskView::Ask(symbol)) + visits(
                            symbols_of(symbol.0, local_targets(workspace, symbol)),
                        ),
                        ..self
                    }
                },
                TaskView::Ask(symbol) => TraceView {
                    pending: rest,
                    asking: Some(symbol),
                    ..self
                },
                TaskView::Follow(symbol, reference) => TraceView {
                    pending: rest + visits(reference_targets(workspace, reference)),
                    ..self
                }.reference_marked(workspace, index, symbol, reference),
            }
        } else if self.roots.len() > 0 {
            TraceView {
                roots: self.roots.drop_last(),
                pending: seq![TaskView::Visit(self.roots.last())],
                ..self
            }
        } else {
            self
        }
    }

    /// The trace after the references that it asked for came back; where they
    /// could not be found, the current root is given up.
    pub open spec fn answered(
        self,
        workspace: WorkspaceView,
        references: Option<Seq<ReferenceView>>,
    ) -> TraceView {
        match self.asking {
            Some(symbol) => TraceView {
                asking: None,
                pending: match references {
                    Some(found) => if found.len() == 0 {
                        self.pending + visits(
                            symbols_of(symbol.0, export_targets(workspace, symbol)),
                        )
                    } else {
                        self.pending + follows(symbol, found)
                    },
                    None => Seq::empty(),
                },
                ..self
            },
            None => self,
        }
    }

    /// The trace at the start of tracing from some symbols, the first of them
    /// first.
    pub open spec fn begun(self, symbols: Seq<(usize, Seq<char>)>) -> TraceView {
        TraceView {
            visited: Set::empty(),
            roots: symbols.reverse(),
            pending: Seq::empty(),
            asking: None,
            ..self
        }
    }
}

/// The names that are not the given one, behind others.
fn push_other_names(r: &mut Vec<String>, names: &Vec<String>, name: &str)
    ensures
        texts(final(r)@) == texts(old(r)@) + other_names(texts(names@), name@),
{
    let ghost before = texts(r@);
    let ghost all = texts(names@);
    let mut i: usize = 0;
    proof {
        assert(before + other_names(all.take(0), name@) =~= before);
    }
    while i < names.len()
        invariant
            all == texts(names@),
            i <= names@.len(),
            texts(r@) == before + other_names(all.take(i as int), name@),
        decreases names@.len() - i,
    {
        let ghost current = r@;
        proof {
            assert(all.take(i + 1).drop_last() =~= all.take(i as int));
            assert(all.take(i + 1).last() == names@[i as int]@);
        }
        if !same(names[i].as_str(), name) {
            r.push(names[i].clone());
            proof {
                assert(texts(r@) =~= texts(current).push(names@[i as int]@));
                assert(texts(r@) =~= before + other_names(all.take(i + 1), name@));
            }
        }
        i = i + 1;
    }
    proof {
        assert(all.take(all.len() as int) =~= all);
    }
}

/// The declarations of a file that refer to one of its symbols.
fn find_local_holders(file: &AnalyzedFile, symbol: &str) -> (r: Vec<String>)
    requires
        byte_len(file.file_data.source@) < usize::MAX,
    ensures
        texts(r@) == local_holders(file@, symbol@),
{
    let references: Vec<Reference> = file.file_data.references_to(
        file.relative_path.as_str(),
        symbol,
    );
    let ghost views = reference_views(references@);
    let mut r: Vec<String> = Vec::new();
    let mut i: usize = 0;
    proof {
        assert(texts(r@) =~= Seq::<Seq<char>>::empty());
        assert(views.len() == references@.len());
    }
    while i < references.len()
        invariant
            byte_len(file.file_data.source@) < usize::MAX,
            views == reference_views(references@),
            i <= references@.len(),
            texts(r@) == holders(file@.file_data, views, symbol@, i as nat),
        decreases references@.len() - i,
    {
        proof {
            assert(views[i as int] == references@[i as int]@);
        }
        let names: Vec<String> = file.file_data.names_around_reference(&references[i]);
        push_other_names(&mut r, &names, symbol);
        i = i + 1;
    }
    r
}

/// What a file exports from itself.
fn find_own_exports(file: &AnalyzedFile) -> (r: Vec<String>)
    ensures
        texts(r@) == own_exports(file@.exports, file@.exports.len()),
{
    let mut r: Vec<String> = Vec::new();
    let mut i: usize = 0;
    proof {
        assert(texts(r@) =~= Seq::<Seq<char>>::empty());
    }
    while i < file.exports.len()
        invariant
            i <= file.exports@.len(),
            texts(r@) == own_exports(file@.exports, i as nat),
        decreases file.exports@.len() - i,
    {
        let export: &Export = &file.exports[i];
        let ghost before = r@;
        proof {
            assert(file@.exports[i as int] == export@);
        }
        if export.re_export_from.is_none() {
            let name: String = match &export.local_name {
                Some(name) => name.clone(),
                None => export.exported_name.clone(),
            };
            r.push(name);
            proof {
                assert(texts(r@) =~= texts(before).push(name@));
            }
        }
        i = i + 1;
    }
    r
}

/// Puts visits of the given names of a file on top of the tasks.
fn push_visits(pending: &mut Vec<Task>, file: usize, names: &Vec<String>)
    ensures
        task_views(final(pending)@) == task_views(old(pending)@) + visits(
            symbols_of(file, texts(names@)),
        ),
{
    let ghost before = task_views(pending@);
    let ghost all = visits(symbols_of(file, texts(names@)));
    let mut i: usize = names.len();
    proof {
        assert(all.len() == names@.len());
        assert(before + all.take(0) =~= before);
    }
    while i > 0
        invariant
            all == visits(symbols_of(file, texts(names@))),
            all.len() == names@.len(),
            i <= names@.len(),
            task_views(pending@) == before + all.take(names@.len() - i),
        decreases i,
    {
        let ghost current = pending@;
        let task: Task = Task::Visit(file, names[i - 1].clone());
        pending.push(task);
        proof {
            let at = names@.len() - i;
            assert(all[at] == task@);
            assert(task_views(pending@) =~= task_views(current).push(task@));
            assert(all.take(at + 1) =~= all.take(at).push(task@));
            assert(task_views(pending@) =~= before + all.take(at + 1));
        }
        i = i - 1;
    }
    proof {
        assert(all.take(all.len() as int) =~= all);
    }
}

/// Puts the references to a symbol on top of the tasks.
fn push_follows(pending: &mut Vec<Task>, file: usize, symbol: &str, references: &Vec<Reference>)
    ensures
        task_views(final(pending)@) == task_views(old(pending)@) + follows(
            (file, symbol@),
            reference_views(references@),
        ),
{
    let ghost before = task_views(pending@);
    let ghost all = follows((file, symbol@), reference_views(references@));
    let mut i: usize = references.len();
    proof {
        assert(all.len() == references@.len());
        assert(before + all.take(0) =~= before);
    }
    while i > 0
        invariant
            all == follows((file, symbol@), reference_views(references@)),
            all.len() == references@.len(),
            i <= references@.len(),
            task_views(pending@) == before + all.take(references@.len() - i),
        decreases i,
    {
        let ghost current = pending@;
        let found: &Reference = &references[i - 1];
        let reference: Reference = Reference {
            file_path: found.file_path.clone(),
            line: found.line,
            column: found.column,
        };
        let task: Task = Task::Follow(file, symbol.to_owned(), reference);
        pending.push(task);
        proof {
            let at = references@.len() - i;
            assert(reference_views(references@)[i - 1] == found@);
            assert(all[at] == task@);
            assert(task_views(pending@) =~= task_views(current).push(task@));
            assert(all.take(at + 1) =~= all.take(at).push(task@));
            assert(task_views(pending@) =~= before + all.take(at + 1));
        }
        i = i - 1;
    }
    proof {
        assert(all.take(all.len() as int) =~= all);
    }
}

/// The causes that a reference to a symbol brings, where the symbol comes from the
/// given projects.
fn find_imported_from(
    analyzer: &WorkspaceAnalyzer,
    projects: &Vec<String>,
    file: usize,
    symbol: &str,
    reference: &Reference,
) -> (r: Vec<AffectCause>)
    ensures
        cause_views(r@) == imported_from(
            analyzer@,
            texts(projects@),
            (file, symbol@),
            reference@,
        ),
{
    let source_file: String = find_path_of(analyzer, file);
    let ghost all = imported_from(analyzer@, texts(projects@), (file, symbol@), reference@);
    let mut r: Vec<AffectCause> = Vec::new();
    let mut i: usize = 0;
    proof {
        assert(cause_views(r@) =~= all.take(0));
    }
    while i < projects.len()
        invariant
            source_file@ == path_of_symbol(analyzer@, (file, symbol@)),
            all == imported_from(analyzer@, texts(projects@), (file, symbol@), reference@),
            all.len() == projects@.len(),
            i <= projects@.len(),
            cause_views(r@) == all.take(i as int),
        decreases projects@.len() - i,
    {
        let cause: AffectCause = AffectCause::ImportedSymbol {
            source_project: projects[i].clone(),
            symbol: symbol.to_owned(),
            via_file: reference.file_path.clone(),
            source_file: source_file.clone(),
        };
        let ghost before = r@;
        r.push(cause);
        proof {
            assert(texts(projects@)[i as int] == projects@[i as int]@);
            assert(all[i as int] == cause@);
            assert(cause_views(r@) =~= cause_views(before).push(cause@));
            assert(all.take(i + 1) =~= all.take(i as int).push(cause@));
        }
        i = i + 1;
    }
    proof {
        assert(all.take(all.len() as int) =~= all);
    }
    r
}

/// The path of a file.
fn find_path_of(analyzer: &WorkspaceAnalyzer, file: usize) -> (r: String)
    ensures
        forall|symbol: Seq<char>| r@ == #[trigger] path_of_symbol(analyzer@, (file, symbol)),
{
    let r: String = if file < analyzer.file_count() {
        analyzer.file(file).relative_path.clone()
    } else {
        String::new()
    };
    proof {
        if file >= analyzer@.files.len() {
            assert(r@ =~= Seq::<char>::empty());
        }
    }
    r
}

/// The projects that a file which counts for none still belongs to.
fn find_spare_projects(project_index: &ProjectIndex, source_file: &str) -> (r: Vec<String>)
    ensures
        texts(r@) == spare_projects(project_index@, source_file@),
{
    let mut r: Vec<String> = project_index.get_owning_packages_by_path(source_file);
    proof {
        assert(texts(r@).len() == r@.len());
    }
    if r.len() == 0 {
        r.push(String::new());
        proof {
            assert(texts(r@) =~= seq![Seq::<char>::empty()]);
        }
    }
    r
}

/// What a trace needs next.
#[derive(Debug, Clone, PartialEq, Eq)]
pub enum Need {
    /// Nothing: it goes on by itself.
    Nothing,
    /// The references to a symbol of a file in other files.
    References { file_path: String, symbol: String },
    /// Nothing more: it is done.
    Done,
}

/// Whether a trace needs what is said.
pub open spec fn needs(workspace: WorkspaceView, trace: TraceView, need: Need) -> bool {
    match need {
        Need::Nothing => trace.asking is None && !trace.is_done(),
        Need::References { file_path, symbol } => trace.asking matches Some(asked) && symbol@
            == asked.1 && file_path@ == path_of_symbol(workspace, asked),
        Need::Done => trace.is_done(),
    }
}

impl AffectedState {
    /// The state before anything is affected.
    pub fn new(generate_report: bool) -> (r: AffectedState)
        ensures
            r@ == (TraceView {
                generate_report,
                affected: Set::empty(),
                causes: Map::empty(),
                spare: Map::empty(),
                visited: Set::empty(),
                roots: Seq::empty(),
                pending: Seq::empty(),
                asking: None,
            }),
    {
        let r: AffectedState = AffectedState {
            generate_report,
            affected_packages: no_names(),
            project_causes: CauseLog::new(),
            spare_causes: CauseLog::new(),
            visited: no_nodes(),
            roots: Vec::new(),
            pending: Vec::new(),
            asking: None,
        };
        proof {
            assert(r@.roots =~= Seq::<(usize, Seq<char>)>::empty());
            assert(r@.pending =~= Seq::<TaskView>::empty());
        }
        r
    }

    /// Whether a project is affected.
    pub fn is_affected(&self, name: &str) -> (r: bool)
        ensures
            r == self@.affected.contains(name@),
    {
        contains_name(&self.affected_packages, name)
    }

    /// The affected projects, in the order of their names.
    pub fn affected_names(&self) -> (r: Vec<String>)
        ensures
            texts(r@).to_set() == self@.affected,
            texts(r@).no_duplicates(),
            in_order(texts(r@)),
    {
        sorted(list_names(&self.affected_packages))
    }

    /// The projects that have causes, in the order of their names.
    pub fn cause_report(self) -> (r: Vec<AffectedProjectInfo>)
        ensures
            reports_all(r@, cause_pairs(self@.explanations())),
    {
        self.project_causes.completed(self.spare_causes).report()
    }

    /// Whether causes are recorded.
    pub fn generates_report(&self) -> (r: bool)
        ensures
            r == self@.generate_report,
    {
        self.generate_report
    }

    /// Marks projects as affected, each for the given causes, which come behind
    /// those that it has.
    pub fn mark(&mut self, projects: &Vec<String>, causes: &Vec<AffectCause>)
        ensures
            final(self)@ == old(self)@.marked(texts(projects@), cause_views(causes@)),
            old(self)@.generate_report ==> forall|name: Seq<char>| #[trigger]
                list_of(final(self)@.causes, name) == list_of(old(self)@.causes, name) + repeated(
                    cause_views(causes@),
                    occurrences(texts(projects@), name),
                ),
    {
        let ghost before = self@;
        let ghost all = texts(projects@);
        let mut i: usize = 0;
        proof {
            assert(before.affected + all.take(0).to_set() =~= before.affected);
        }
        while i < projects.len()
            invariant
                all == texts(projects@),
                i <= projects@.len(),
                self@ == (TraceView {
                    affected: before.affected + all.take(i as int).to_set(),
                    ..before
                }),
            decreases projects@.len() - i,
        {
            insert_name(&mut self.affected_packages, projects[i].clone());
            proof {
                assert(all.take(i + 1) =~= all.take(i as int).push(projects@[i as int]@));
                lemma_set_push(all.take(i as int), projects@[i as int]@);
                assert(self@.affected =~= before.affected + all.take(i + 1).to_set());
            }
            i = i + 1;
        }
        proof {
            assert(all.take(all.len() as int) =~= all);
        }
        if self.generate_report {
            self.project_causes.record_all(projects, causes);
        }
    }

    /// Starts tracing from some symbols, the first of them first.
    pub fn begin(&mut self, symbols: &Vec<(usize, String)>)
        ensures
            final(self)@ == old(self)@.begun(symbol_pairs(symbols@)),
    {
        let ghost all = symbol_pairs(symbols@).reverse();
        let mut roots: Vec<(usize, String)> = Vec::new();
        let mut i: usize = symbols.len();
        proof {
            assert(symbol_pairs(roots@) =~= all.take(0));
        }
        while i > 0
            invariant
                all == symbol_pairs(symbols@).reverse(),
                all.len() == symbols@.len(),
                i <= symbols@.len(),
                symbol_pairs(roots@) == all.take(symbols@.len() - i),
            decreases i,
        {
            let ghost current = roots@;
            let root: (usize, String) = (symbols[i - 1].0, symbols[i - 1].1.clone());
            roots.push(root);
            proof {
                let at = symbols@.len() - i;
                assert(symbol_pairs(symbols@)[i - 1] == (root.0, root.1@));
                assert(all[at] == (root.0, root.1@));
                assert(symbol_pairs(roots@) =~= symbol_pairs(current).push((root.0, root.1@)));
                assert(all.take(at + 1) =~= all.take(at).push((root.0, root.1@)));
            }
            i = i - 1;
        }
        proof {
            assert(all.take(all.len() as int) =~= all);
        }
        self.visited = no_nodes();
        self.roots = roots;
        self.pending = Vec::new();
        self.asking = None;
        proof {
            assert(self@.pending =~= Seq::<TaskView>::empty());
        }
    }

    /// Goes on with a symbol that was not traced before: its references in its
    /// own file first, those in other files then.
    fn visit(&mut self, analyzer: &WorkspaceAnalyzer, file: usize, symbol: String)
        ensures
            final(self)@ == if old(self)@.visited.contains((file, symbol@)) {
                old(self)@
            } else {
                TraceView {
                    visited: old(self)@.visited.insert((file, symbol@)),
                    pending: old(self)@.pending.push(TaskView::Ask((file, symbol@))) + visits(
                        symbols_of(file, local_targets(analyzer@, (file, symbol@))),
                    ),
                    ..old(self)@
                }
            },
    {
        let ghost before = self@;
        let ghost node = (file, symbol@);
        if !insert_node(&mut self.visited, (file, symbol.clone())) {
            proof {
                assert(self@.visited =~= before.visited);
            }
            return;
        }
        let names: Vec<String> = if file < analyzer.file_count() {
            find_local_holders(analyzer.file(file), symbol.as_str())
        } else {
            Vec::new()
        };
        proof {
            assert(texts(names@) =~= local_targets(analyzer@, node));
        }
        let ghost tasks = self.pending@;
        let task: Task = Task::Ask(file, symbol);
        self.pending.push(task);
        proof {
            assert(task_views(self.pending@) =~= task_views(tasks).push(task@));
        }
        push_visits(&mut self.pending, file, &names);
    }

    /// Marks the projects that a reference to a symbol stands in.
    fn mark_reference(
        &mut self,
        analyzer: &WorkspaceAnalyzer,
        project_index: &ProjectIndex,
        file: usize,
        symbol: &str,
        reference: &Reference,
    )
        ensures
            final(self)@ == old(self)@.reference_marked(
                analyzer@,
                project_index@,
                (file, symbol@),
                reference@,
            ),
    {
        let packages: Vec<String> = project_index.get_package_names_by_path(
            reference.file_path.as_str(),
        );
        let source_file: String = find_path_of(analyzer, file);
        let sources: Vec<String> = project_index.get_package_names_by_path(source_file.as_str());
        let ghost node = (file, symbol@);
        proof {
            assert(source_file@ == path_of_symbol(analyzer@, node));
            assert(texts(sources@).len() == sources@.len());
        }
        let causes: Vec<AffectCause> = find_imported_from(
            analyzer,
            &sources,
            file,
            symbol,
            reference,
        );
        self.mark(&packages, &causes);
        let spare: Vec<AffectCause> = if sources.len() > 0 {
            Vec::new()
        } else {
            let owners: Vec<String> = find_spare_projects(project_index, source_file.as_str());
            find_imported_from(analyzer, &owners, file, symbol, reference)
        };
        proof {
            assert(cause_views(spare@) =~= spare_causes(
                analyzer@,
                project_index@,
                node,
                reference@,
            ));
        }
        if self.generate_report {
            self.spare_causes.record_all(&packages, &spare);
        }
    }

    /// Goes on at a reference in another file.
    fn follow(
        &mut self,
        analyzer: &WorkspaceAnalyzer,
        project_index: &ProjectIndex,
        file: usize,
        symbol: &str,
        reference: &Reference,
    )
        ensures
            final(self)@ == (TraceView {
                pending: old(self)@.pending + visits(
                    reference_targets(analyzer@, reference@),
                ),
                ..old(self)@
            }).reference_marked(analyzer@, project_index@, (file, symbol@), reference@),
    {
        let ghost before = self@;
        self.mark_reference(analyzer, project_index, file, symbol, reference);
        match analyzer.number_of_file(reference.file_path.as_str()) {
            Some(other) => {
                let target: &AnalyzedFile = analyzer.file(other);
                let names: Vec<String> = if reference.line == 0 && reference.column == 0 {
                    find_own_exports(target)
                } else {
                    target.file_data.names_around_reference(reference)
                };
                push_visits(&mut self.pending, other, &names);
            },
            None => {
                proof {
                    assert(visits(Seq::empty()) =~= Seq::<TaskView>::empty());
                    assert(self@.pending =~= before.pending + visits(
                        reference_targets(analyzer@, reference@),
                    ));
                }
            },
        }
    }

    /// One step of tracing changed symbols.
    pub fn process_changed_symbol(
        &mut self,
        analyzer: &WorkspaceAnalyzer,
        project_index: &ProjectIndex,
    ) -> (need: Need)
        ensures
            final(self)@ == if old(self)@.asking is Some {
                old(self)@
            } else {
                old(self)@.stepped(analyzer@, project_index@)
            },
            needs(analyzer@, final(self)@, need),
    {
        let ghost before = self@;
        if self.asking.is_none() {
            proof {
                assert(before.pending.len() == self.pending@.len());
                assert(before.roots.len() == self.roots@.len());
            }
            let ghost tasks = self.pending@;
            let ghost starts = self.roots@;
            match self.pending.pop() {
                Some(task) => {
                    proof {
                        assert(task_views(tasks).last() == task@);
                        assert(task_views(self.pending@) =~= task_views(tasks).drop_last());
                    }
                    match task {
                        Task::Visit(file, symbol) => {
                            self.visit(analyzer, file, symbol);
                        },
                        Task::Ask(file, symbol) => {
                            self.asking = Some((file, symbol));
                        },
                        Task::Follow(file, symbol, reference) => {
                            self.follow(
                                analyzer,
                                project_index,
                                file,
                                symbol.as_str(),
                                &reference,
                            );
                        },
                    }
                },
                None => {
                    if let Some((file, symbol)) = self.roots.pop() {
                        proof {
                            assert(symbol_pairs(starts).last() == (file, symbol@));
                            assert(symbol_pairs(self.roots@) =~= symbol_pairs(starts).drop_last());
                        }
                        let task: Task = Task::Visit(file, symbol);
                        self.pending.push(task);
                        proof {
                            assert(task_views(self.pending@) =~= seq![task@]);
                        }
                    }
                },
            }
            proof {
                assert(self@ == before.stepped(analyzer@, project_index@));
            }
        }
        self.need(analyzer)
    }

    /// Whether nothing is left to be done.
    pub fn is_done(&self) -> (r: bool)
        ensures
            r == self@.is_done(),
    {
        proof {
            assert(self@.pending.len() == self.pending@.len());
            assert(self@.roots.len() == self.roots@.len());
        }
        self.roots.len() == 0 && self.pending.len() == 0 && self.asking.is_none()
    }

    /// What the trace needs next.
    pub fn need(&self, analyzer: &WorkspaceAnalyzer) -> (need: Need)
        ensures
            needs(analyzer@, self@, need),
    {
        proof {
            assert(self@.pending.len() == self.pending@.len());
            assert(self@.roots.len() == self.roots@.len());
        }
        match &self.asking {
            Some(asked) => {
                let file_path: String = find_path_of(analyzer, asked.0);
                proof {
                    assert(file_path@ == path_of_symbol(analyzer@, (asked.0, asked.1@)));
                }
                Need::References { file_path, symbol: asked.1.clone() }
            },
            None => if self.roots.len() == 0 && self.pending.len() == 0 {
                Need::Done
            } else {
                Need::Nothing
            },
        }
    }

    /// Takes in the references that were asked for; none where they could not be
    /// found, which gives up the current root.
    pub fn answer(&mut self, analyzer: &WorkspaceAnalyzer, references: Option<Vec<Reference>>)
        ensures
            final(self)@ == old(self)@.answered(
                analyzer@,
                match references {
                    Some(found) => Some(reference_views(found@)),
                    None => None,
                },
            ),
    {
        let ghost before = self@;
        let asked: Option<(usize, String)> = self.asking.take();
        if let Some((file, symbol)) = asked {
            match references {
                Some(found) => {
                    proof {
                        assert(reference_views(found@).len() == found@.len());
                    }
                    if found.len() == 0 {
                        let names: Vec<String> = if file < analyzer.file_count()
                            && !analyzer.file(file).exports_named(symbol.as_str()) {
                            analyzer.file(file).exported_symbols_using(symbol.as_str())
                        } else {
                            Vec::new()
                        };
                        proof {
                            assert(texts(names@) =~= export_targets(analyzer@, (file, symbol@)));
                        }
                        push_visits(&mut self.pending, file, &names);
                    } else {
                        push_follows(&mut self.pending, file, symbol.as_str(), &found);
                    }
                },
                None => {
                    self.pending = Vec::new();
                    proof {
                        assert(self@.pending =~= Seq::<TaskView>::empty());
                    }
                },
            }
        }
    }
}

} // verus!
