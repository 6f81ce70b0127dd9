//! What changes are followed to: declarations, exports, references, assets and
//! dependencies, each told from the files that hold them.
use crate::affected::{
    all_lockfile_symbols, analyzed_causes, asset_reference_jobs, changed_symbols, dependency_of,
    file_causes, import_naming, lockfile_causes, lockfile_marked, lockfile_symbols, named_causes,
    single_traces, source_jobs, symbol_causes, symbols_behind, with_all_distinct,
    AnalysisView, JobView, ModuleMatch, WaitingView,
};
use crate::causes::{lemma_pairs_appended, list_of};
use crate::lists::{lemma_joined, lemma_pushed};
use crate::paths::{last_name, same_path};
use crate::semantic::analyzer::{
    all_local_references, exports_using, file_number, names_around, names_on_line,
    AnalyzedView, FileView, WorkspaceView,
};
use crate::semantic::listed::{exports_user, law_exports_using, law_file_number, law_is_exported};
use crate::text::holds_text;
use crate::trace::{
    export_targets, holders, imported_from, local_targets, other_names, own_exports,
    path_of_symbol, reference_targets, symbols_of, TraceView,
};
use crate::types::{
    AssetReference, CauseView, ExportView, ImportView, LockfileStrategy, ReferenceView,
};
use crate::utils::IndexView;
use vstd::prelude::*;

verus! {

/// The names other than a given one are those that are not it.
proof fn lemma_other_names(names: Seq<Seq<char>>, symbol: Seq<char>, name: Seq<char>)
    ensures
        other_names(names, symbol).contains(name) == (names.contains(name) && name != symbol),
    decreases names.len(),
{
    if names.len() > 0 {
        let rest = names.drop_last();
        lemma_other_names(rest, symbol, name);
        assert(names =~= rest.push(names.last()));
        lemma_pushed(rest, names.last(), name);
        lemma_pushed(other_names(rest, symbol), names.last(), name);
    }
}

/// The declarations that hold references are those around each of them.
proof fn lemma_holders(
    file: FileView,
    references: Seq<ReferenceView>,
    symbol: Seq<char>,
    upto: nat,
    name: Seq<char>,
)
    requires
        upto <= references.len(),
    ensures
        holders(file, references, symbol, upto).contains(name) == (name != symbol && exists|k: int|
            0 <= k < upto && names_around(file, #[trigger] references[k]).contains(name)),
    decreases upto,
{
    if upto > 0 {
        lemma_holders(file, references, symbol, (upto - 1) as nat, name);
        let last = names_around(file, references[upto - 1]);
        lemma_other_names(last, symbol, name);
        lemma_joined(
            holders(file, references, symbol, (upto - 1) as nat),
            other_names(last, symbol),
            name,
        );
    }
}

/// A changed symbol is followed in its file to every declaration, other than its
/// own, that stands around one of the references to it, and to no other.
pub proof fn law_local_targets(
    workspace: WorkspaceView,
    symbol: (usize, Seq<char>),
    name: Seq<char>,
)
    ensures
        local_targets(workspace, symbol).contains(name) == (symbol.0 < workspace.files.len() && name
            != symbol.1 && exists|r: ReferenceView| #[trigger]
            all_local_references(
                workspace.files[symbol.0 as int].file_data,
                workspace.files[symbol.0 as int].relative_path,
                symbol.1,
            ).contains(r) && names_around(
                workspace.files[symbol.0 as int].file_data,
                r,
            ).contains(name)),
{
    if symbol.0 < workspace.files.len() {
        let file = workspace.files[symbol.0 as int];
        let references = all_local_references(file.file_data, file.relative_path, symbol.1);
        lemma_holders(file.file_data, references, symbol.1, references.len(), name);
        if exists|k: int|
            0 <= k < references.len() && names_around(
                file.file_data,
                #[trigger] references[k],
            ).contains(name) {
            let k = choose|k: int|
                0 <= k < references.len() && names_around(
                    file.file_data,
                    #[trigger] references[k],
                ).contains(name);
            assert(references.contains(references[k]));
        }
        if exists|r: ReferenceView| #[trigger]
            references.contains(r) && names_around(file.file_data, r).contains(name) {
            let r = choose|r: ReferenceView| #[trigger]
                references.contains(r) && names_around(file.file_data, r).contains(name);
            let k = choose|k: int| 0 <= k < references.len() && references[k] == r;
            assert(names_around(file.file_data, references[k]).contains(name));
        }
    }
}

/// A symbol that its file does not export is followed to every export of the file
/// whose declaration refers to it; one that is exported, under whatever name, is not.
pub proof fn law_export_targets(
    workspace: WorkspaceView,
    symbol: (usize, Seq<char>),
    name: Seq<char>,
)
    ensures
        export_targets(workspace, symbol).contains(name) == (symbol.0 < workspace.files.len() && (
        forall|e: int|
            0 <= e < workspace.files[symbol.0 as int].exports.len() ==> (
            #[trigger] workspace.files[symbol.0 as int].exports[e]).exported_name != symbol.1
                && workspace.files[symbol.0 as int].exports[e].local_name != Some(symbol.1))
            && exists|e: int|
            0 <= e < workspace.files[symbol.0 as int].exports.len() && #[trigger] exports_user(
                workspace.files[symbol.0 as int],
                e,
                symbol.1,
                name,
            )),
{
    if symbol.0 < workspace.files.len() {
        let file = workspace.files[symbol.0 as int];
        law_is_exported(file, symbol.1);
        law_exports_using(file, symbol.1, name);
    }
}

/// What a file exports from itself is the local name of each export that is no
/// re-export.
proof fn lemma_own_exports(exports: Seq<ExportView>, upto: nat, name: Seq<char>)
    requires
        upto <= exports.len(),
    ensures
        own_exports(exports, upto).contains(name) == exists|e: int|
            0 <= e < upto && (#[trigger] exports[e]).re_export_from is None && name == (
            if exports[e].local_name is Some {
                exports[e].local_name->0
            } else {
                exports[e].exported_name
            }),
    decreases upto,
{
    if upto > 0 {
        lemma_own_exports(exports, (upto - 1) as nat, name);
        let before = own_exports(exports, (upto - 1) as nat);
        if exports[upto - 1].re_export_from is None {
            let local = own_exports(exports, upto).last();
            lemma_pushed(before, local, name);
        }
    }
}

/// The names of a file's symbols.
proof fn lemma_symbols_of(file: usize, names: Seq<Seq<char>>, m: (usize, Seq<char>))
    ensures
        symbols_of(file, names).contains(m) == (m.0 == file && names.contains(m.1)),
{
    let list = symbols_of(file, names);
    if list.contains(m) {
        let k = choose|k: int| 0 <= k < list.len() && list[k] == m;
        assert(names[k] == m.1);
    }
    if m.0 == file && names.contains(m.1) {
        let k = choose|k: int| 0 <= k < names.len() && names[k] == m.1;
        assert(list[k] == m);
    }
}

/// Whether file `i` is the one of a path.
pub open spec fn is_file_of(files: Seq<AnalyzedView>, path: Seq<char>, i: int) -> bool {
    &&& 0 <= i < files.len()
    &&& same_path(files[i].relative_path, path)
    &&& forall|k: int| 0 <= k < i ==> !same_path((#[trigger] files[k]).relative_path, path)
}

/// The file that is found is the one of the path.
proof fn lemma_found(files: Seq<AnalyzedView>, path: Seq<char>, i: int)
    ensures
        (file_number(files, path, 0) == Some(i)) == is_file_of(files, path, i),
{
    law_file_number(files, path, 0);
    if is_file_of(files, path, i) {
        match file_number(files, path, 0) {
            Some(j) => {
                if j < i {
                    assert(!same_path(files[j].relative_path, path));
                }
                if i < j {
                    assert(!same_path(files[i].relative_path, path));
                }
            },
            None => {
                assert(!same_path(files[i].relative_path, path));
            },
        }
    }
}

/// A reference in an analyzed file is followed to the declarations around it; one
/// that stands for the whole file, to everything that the file exports from itself.
/// One in another file is followed to nothing.
pub proof fn law_reference_targets(
    workspace: WorkspaceView,
    reference: ReferenceView,
    m: (usize, Seq<char>),
)
    ensures
        reference_targets(workspace, reference).contains(m) == exists|i: int| #[trigger]
            is_file_of(workspace.files, reference.file_path, i) && m.0 == i as usize && (
            if reference.line == 0 && reference.column == 0 {
                exists|e: int|
                    0 <= e < workspace.files[i].exports.len() && (
                    #[trigger] workspace.files[i].exports[e]).re_export_from is None && m.1
                        == if workspace.files[i].exports[e].local_name is Some {
                        workspace.files[i].exports[e].local_name->0
                    } else {
                        workspace.files[i].exports[e].exported_name
                    }
            } else {
                names_around(workspace.files[i].file_data, reference).contains(m.1)
            }),
{
    match file_number(workspace.files, reference.file_path, 0) {
        Some(i) => {
            lemma_found(workspace.files, reference.file_path, i);
            let file = workspace.files[i];
            lemma_own_exports(file.exports, file.exports.len(), m.1);
            lemma_symbols_of(
                i as usize,
                crate::trace::reference_names(file, reference),
                m,
            );
            assert forall|k: int| is_file_of(workspace.files, reference.file_path, k) implies k
                == i by {
                lemma_found(workspace.files, reference.file_path, k);
            }
            assert(is_file_of(workspace.files, reference.file_path, i));
        },
        None => {
            assert forall|k: int| !is_file_of(workspace.files, reference.file_path, k) by {
                lemma_found(workspace.files, reference.file_path, k);
            }
        },
    }
}

/// Names with others, each once, hold both.
proof fn lemma_all_distinct(names: Seq<Seq<char>>, more: Seq<Seq<char>>, name: Seq<char>)
    ensures
        with_all_distinct(names, more).contains(name) == (names.contains(name) || more.contains(
            name,
        )),
        names.no_duplicates() ==> with_all_distinct(names, more).no_duplicates(),
    decreases more.len(),
{
    if more.len() > 0 {
        let rest = more.drop_last();
        let last = more.last();
        lemma_all_distinct(names, rest, name);
        assert(more =~= rest.push(last));
        lemma_pushed(rest, last, name);
        let before = with_all_distinct(names, rest);
        lemma_pushed(before, last, name);
        if names.no_duplicates() && !before.contains(last) {
            let after = before.push(last);
            assert forall|i: int, j: int|
                0 <= i < after.len() && 0 <= j < after.len() && i != j implies after[i]
                != after[j] by {
                if i == before.len() {
                    assert(before.contains(before[j]));
                } else if j == before.len() {
                    assert(before.contains(before[i]));
                }
            }
        }
    }
}

/// The symbols of changed lines are all those that one of the lines belongs to, each
/// once.
pub proof fn law_changed_symbols(file: FileView, lines: Seq<usize>, upto: nat, name: Seq<char>)
    requires
        upto <= lines.len(),
    ensures
        changed_symbols(file, lines, upto).contains(name) == exists|k: int|
            0 <= k < upto && names_on_line(file, #[trigger] lines[k] as nat, 0).contains(name),
        changed_symbols(file, lines, upto).no_duplicates(),
    decreases upto,
{
    if upto > 0 {
        law_changed_symbols(file, lines, (upto - 1) as nat, name);
        lemma_all_distinct(
            changed_symbols(file, lines, (upto - 1) as nat),
            names_on_line(file, lines[upto - 1] as nat, 0),
            name,
        );
    }
}

/// A changed source file that was analyzed has all symbols of its changed lines
/// traced together, and no others; one that was not has none traced.
pub proof fn law_source_is_traced(
    workspace: WorkspaceView,
    index: IndexView,
    analysis: AnalysisView,
    path: Seq<char>,
    lines: Seq<usize>,
    i: int,
    name: Seq<char>,
)
    ensures
        ({
            let more = analysis.after_job(
                workspace,
                index,
                JobView::Source { path, lines },
            ).jobs;
            &&& analysis.jobs.is_prefix_of(more)
            &&& more.len() <= analysis.jobs.len() + 1
            &&& (forall|k: int| !#[trigger] is_file_of(workspace.files, path, k)) ==> more
                == analysis.jobs
            &&& is_file_of(workspace.files, path, i) ==> {
                let traced = exists|k: int|
                    0 <= k < lines.len() && names_on_line(
                        workspace.files[i].file_data,
                        #[trigger] lines[k] as nat,
                        0,
                    ).contains(name);
                traced == (more.len() == analysis.jobs.len() + 1 && more.last() is Trace
                    && more.last()->Trace_0.contains((i as usize, name)))
            }
        }),
{
    let more = source_jobs(workspace, path, lines);
    let after = analysis.after_job(workspace, index, JobView::Source { path, lines }).jobs;
    assert(after == analysis.jobs + more);
    assert(analysis.jobs =~= after.subrange(0, analysis.jobs.len() as int));
    law_file_number(workspace.files, path, 0);
    match file_number(workspace.files, path, 0) {
        Some(j) => {
            lemma_found(workspace.files, path, j);
            assert(is_file_of(workspace.files, path, j));
            if is_file_of(workspace.files, path, i) {
                lemma_found(workspace.files, path, i);
                let names = changed_symbols(workspace.files[i].file_data, lines, lines.len());
                law_changed_symbols(workspace.files[i].file_data, lines, lines.len(), name);
                lemma_symbols_of(i as usize, names, (i as usize, name));
                if more.len() > 0 {
                    assert(after.last() == more[0]);
                }
            }
        },
        None => {
            if is_file_of(workspace.files, path, i) {
                lemma_found(workspace.files, path, i);
            }
            assert(after =~= analysis.jobs);
        },
    }
}

/// Whether a cause is a changed line of a file that belongs to a symbol, or to none.
pub open spec fn is_line_of(
    cause: CauseView,
    path: Seq<char>,
    symbol: Option<Seq<char>>,
    line: usize,
) -> bool {
    cause matches CauseView::DirectChange { file, symbol: s, line: l } && file == path && s
        == symbol && l == line
}

/// The causes of changed lines are one for each line and symbol, or one for a line
/// without symbols.
proof fn lemma_symbol_causes(
    file: FileView,
    path: Seq<char>,
    lines: Seq<usize>,
    upto: nat,
    cause: CauseView,
)
    requires
        upto <= lines.len(),
    ensures
        symbol_causes(file, path, lines, upto).contains(cause) == exists|k: int|
            0 <= k < upto && is_cause_of_line(file, path, #[trigger] lines[k], cause),
    decreases upto,
{
    if upto > 0 {
        lemma_symbol_causes(file, path, lines, (upto - 1) as nat, cause);
        let line = lines[upto - 1];
        let names = names_on_line(file, line as nat, 0);
        let more = named_causes(path, line, names);
        lemma_joined(symbol_causes(file, path, lines, (upto - 1) as nat), more, cause);
        if more.contains(cause) {
            let k = choose|k: int| 0 <= k < more.len() && more[k] == cause;
            if names.len() > 0 {
                assert(names.contains(names[k]));
                assert(is_line_of(cause, path, Some(names[k]), line));
            }
        }
        if is_cause_of_line(file, path, line, cause) {
            if names.len() == 0 {
                assert(more[0] == cause);
            } else {
                let name = choose|name: Seq<char>| #[trigger]
                    names.contains(name) && is_line_of(cause, path, Some(name), line);
                let k = choose|k: int| 0 <= k < names.len() && names[k] == name;
                assert(more[k] == cause);
            }
        }
    }
}

/// Whether a cause is one of a changed line of an analyzed file.
pub open spec fn is_cause_of_line(
    file: FileView,
    path: Seq<char>,
    line: usize,
    cause: CauseView,
) -> bool {
    let names = names_on_line(file, line as nat, 0);
    if names.len() == 0 {
        is_line_of(cause, path, None, line)
    } else {
        exists|name: Seq<char>| #[trigger]
            names.contains(name) && is_line_of(cause, path, Some(name), line)
    }
}

/// A changed file counts for its owners by its changed lines: each with the symbols
/// that it belongs to, where the file was analyzed, or with none. Where no lines are
/// known, line 0 counts.
pub proof fn law_source_causes(
    workspace: WorkspaceView,
    path: Seq<char>,
    lines: Seq<usize>,
    i: int,
    cause: CauseView,
)
    ensures
        lines.len() == 0 ==> file_causes(path, lines).len() == 1 && is_line_of(
            file_causes(path, lines)[0],
            path,
            None,
            0,
        ) && analyzed_causes(workspace.files[i].file_data, path, lines) == file_causes(path, lines),
        lines.len() > 0 ==> file_causes(path, lines).len() == lines.len() && forall|k: int|
            0 <= k < lines.len() ==> is_line_of(
                #[trigger] file_causes(path, lines)[k],
                path,
                None,
                lines[k],
            ),
        lines.len() > 0 ==> analyzed_causes(workspace.files[i].file_data, path, lines).contains(
            cause,
        ) == exists|k: int|
            0 <= k < lines.len() && is_cause_of_line(
                workspace.files[i].file_data,
                path,
                #[trigger] lines[k],
                cause,
            ),
{
    lemma_symbol_causes(workspace.files[i].file_data, path, lines, lines.len(), cause);
}

/// A changed source file marks every project that owns it, and records its causes
/// for each.
pub proof fn law_source_marks(
    workspace: WorkspaceView,
    index: IndexView,
    analysis: AnalysisView,
    path: Seq<char>,
    lines: Seq<usize>,
    owner: Seq<char>,
    cause: CauseView,
)
    ensures
        ({
            let before = analysis.trace;
            let after = analysis.after_job(
                workspace,
                index,
                JobView::Source { path, lines },
            ).trace;
            let known = exists|i: int| #[trigger]
                is_file_of(workspace.files, path, i) && analyzed_causes(
                    workspace.files[i].file_data,
                    path,
                    lines,
                ).contains(cause);
            let unknown = (forall|i: int| !#[trigger] is_file_of(workspace.files, path, i))
                && file_causes(path, lines).contains(cause);
            &&& after.affected.contains(owner) == (before.affected.contains(owner) || index.owners(
                path,
                true,
            ).contains(owner))
            &&& before.generate_report ==> list_of(after.causes, owner).contains(cause) == (list_of(
                before.causes,
                owner,
            ).contains(cause) || (index.owners(path, true).contains(owner) && (known || unknown)))
        }),
{
    let before = analysis.trace;
    let owners = index.owners(path, true);
    assert(owners.to_set().contains(owner) == owners.contains(owner));
    law_file_number(workspace.files, path, 0);
    match file_number(workspace.files, path, 0) {
        Some(i) => {
            lemma_found(workspace.files, path, i);
            assert(is_file_of(workspace.files, path, i));
            let causes = analyzed_causes(workspace.files[i].file_data, path, lines);
            lemma_marked_pairs(before, owners, causes, owner, cause);
            assert forall|k: int| #[trigger] is_file_of(workspace.files, path, k) implies k == i by {
                lemma_found(workspace.files, path, k);
            }
        },
        None => {
            assert forall|k: int| !#[trigger] is_file_of(workspace.files, path, k) by {
                lemma_found(workspace.files, path, k);
            }
            lemma_marked_pairs(before, owners, file_causes(path, lines), owner, cause);
        },
    }
}

/// What is recorded with marks.
pub proof fn lemma_marked_pairs(
    trace: TraceView,
    projects: Seq<Seq<char>>,
    causes: Seq<CauseView>,
    project: Seq<char>,
    cause: CauseView,
)
    ensures
        trace.generate_report ==> list_of(trace.marked(projects, causes).causes, project).contains(
            cause,
        ) == (list_of(trace.causes, project).contains(cause) || (projects.contains(project)
            && causes.contains(cause))),
        trace.generate_report ==> list_of(trace.spared(projects, causes).spare, project).contains(
            cause,
        ) == (list_of(trace.spare, project).contains(cause) || (projects.contains(project)
            && causes.contains(cause))),
{
    lemma_pairs_appended(trace.causes, projects, causes);
    lemma_pairs_appended(trace.spare, projects, causes);
    if trace.generate_report {
        let marked = trace.marked(projects, causes);
        let spared = trace.spared(projects, causes);
        assert(crate::causes::cause_pairs(marked.causes).contains((project, cause)) == list_of(
            marked.causes,
            project,
        ).contains(cause));
        assert(crate::causes::cause_pairs(trace.causes).contains((project, cause)) == list_of(
            trace.causes,
            project,
        ).contains(cause));
        assert(crate::causes::cause_pairs(spared.spare).contains((project, cause)) == list_of(
            spared.spare,
            project,
        ).contains(cause));
        assert(crate::causes::cause_pairs(trace.spare).contains((project, cause)) == list_of(
            trace.spare,
            project,
        ).contains(cause));
        assert(crate::causes::all_pairs(projects, causes).contains((project, cause)) == (
        projects.contains(project) && causes.contains(cause)));
    }
}

/// A changed asset marks its owners, records its changed lines for them, and has its
/// references asked for; every one that comes back is to be followed.
pub proof fn law_asset_is_followed(
    workspace: WorkspaceView,
    index: IndexView,
    analysis: AnalysisView,
    path: Seq<char>,
    lines: Seq<usize>,
    found: Seq<AssetReference>,
    k: int,
    owner: Seq<char>,
    cause: CauseView,
)
    requires
        0 <= k < found.len(),
    ensures
        ({
            let asked = analysis.after_job(workspace, index, JobView::Asset { path, lines });
            let told = asked.assets_answered(Some(found));
            &&& asked.waiting == WaitingView::AssetReferences(path)
            &&& asked.trace.affected.contains(owner) == (analysis.trace.affected.contains(owner)
                || index.owners(path, true).contains(owner))
            &&& analysis.trace.generate_report ==> list_of(asked.trace.causes, owner).contains(
                cause,
            ) == (list_of(analysis.trace.causes, owner).contains(cause) || (index.owners(
                path,
                true,
            ).contains(owner) && file_causes(path, lines).contains(cause)))
            &&& told.waiting == WaitingView::Nothing
            &&& told.jobs.len() == analysis.jobs.len() + found.len()
            &&& analysis.jobs.is_prefix_of(told.jobs)
            &&& told.jobs.contains(
                JobView::AssetReference {
                    asset: path,
                    source_file: found[k].source_file@,
                    line: found[k].line,
                },
            )
            &&& asked.assets_answered(None).jobs == analysis.jobs
            &&& asked.assets_answered(None).waiting == WaitingView::Nothing
        }),
{
    let asked = analysis.after_job(workspace, index, JobView::Asset { path, lines });
    let told = asked.assets_answered(Some(found));
    let owners = index.owners(path, true);
    assert(owners.to_set().contains(owner) == owners.contains(owner));
    lemma_marked_pairs(analysis.trace, owners, file_causes(path, lines), owner, cause);
    assert(analysis.jobs =~= told.jobs.subrange(0, analysis.jobs.len() as int));
    let at = analysis.jobs.len() + (found.len() - 1 - k);
    assert(told.jobs[at] == (JobView::AssetReference {
        asset: path,
        source_file: found[k].source_file@,
        line: found[k].line,
    }));
}

/// Whether import `j` is the first whose module holds a text.
pub open spec fn is_first_naming(imports: Seq<ImportView>, text: Seq<char>, j: int) -> bool {
    &&& 0 <= j < imports.len()
    &&& holds_text(imports[j].from_module, text)
    &&& forall|k: int| 0 <= k < j ==> !holds_text((#[trigger] imports[k]).from_module, text)
}

/// The import that names a text is the first that does.
proof fn lemma_import_naming(imports: Seq<ImportView>, text: Seq<char>, from: int, j: int)
    requires
        0 <= from <= j,
        is_first_naming(imports, text, j),
    ensures
        import_naming(imports, text, from) == Some(imports[j].local_name),
    decreases j - from,
{
    if from < j {
        lemma_import_naming(imports, text, from + 1, j);
    }
}

/// Where no import names a text, none is found.
proof fn lemma_no_naming(imports: Seq<ImportView>, text: Seq<char>, from: int)
    requires
        0 <= from,
        forall|k: int|
            0 <= k < imports.len() ==> !holds_text((#[trigger] imports[k]).from_module, text),
    ensures
        import_naming(imports, text, from) is None,
    decreases imports.len() - from,
{
    if from < imports.len() {
        lemma_no_naming(imports, text, from + 1);
    }
}

/// Whether a name is one that a changed import is traced by: each export that uses the
/// import, and the import itself exactly where no export does.
pub open spec fn is_traced_for(file: AnalyzedView, local_name: Seq<char>, name: Seq<char>) -> bool {
    ||| exists|e: int|
        0 <= e < file.exports.len() && #[trigger] exports_user(file, e, local_name, name)
    ||| name == local_name && forall|n: Seq<char>, e: int|
        0 <= e < file.exports.len() ==> !#[trigger] exports_user(file, e, local_name, n)
}

/// A changed import is traced by all exports that use it, and by itself exactly where
/// there are none.
pub proof fn law_symbols_behind(file: AnalyzedView, local_name: Seq<char>, name: Seq<char>)
    ensures
        symbols_behind(file, local_name).contains(name) == is_traced_for(file, local_name, name),
{
    let used = exports_using(file, local_name);
    law_exports_using(file, local_name, name);
    if used.len() > 0 {
        law_exports_using(file, local_name, used[0]);
        assert(used.contains(used[0]));
        let e = choose|e: int|
            0 <= e < file.exports.len() && #[trigger] exports_user(file, e, local_name, used[0]);
        assert(exports_user(file, e, local_name, used[0]));
    } else {
        assert forall|n: Seq<char>, e: int| 0 <= e < file.exports.len() implies !(
        #[trigger] exports_user(file, e, local_name, n)) by {
            law_exports_using(file, local_name, n);
            assert(!used.contains(n));
        }
        assert(symbols_behind(file, local_name)[0] == local_name);
    }
}

/// A reference to a changed asset marks the projects that it counts for and records
/// the asset for them.
pub proof fn law_asset_reference_marks(
    workspace: WorkspaceView,
    index: IndexView,
    analysis: AnalysisView,
    asset: Seq<char>,
    source_file: Seq<char>,
    line: usize,
    project: Seq<char>,
    cause: CauseView,
)
    ensures
        ({
            let after = analysis.after_job(
                workspace,
                index,
                JobView::AssetReference { asset, source_file, line },
            );
            let owns = index.owners(source_file, false).contains(project);
            &&& after.trace.affected.contains(project) == (analysis.trace.affected.contains(project)
                || owns)
            &&& analysis.trace.generate_report ==> list_of(after.trace.causes, project).contains(
                cause,
            ) == (list_of(analysis.trace.causes, project).contains(cause) || (owns && cause == (
            CauseView::AssetChange { asset_file: asset, referenced_in: source_file, line })))
        }),
{
    let owners = index.owners(source_file, false);
    let mine = CauseView::AssetChange { asset_file: asset, referenced_in: source_file, line };
    assert(owners.to_set().contains(project) == owners.contains(project));
    lemma_marked_pairs(analysis.trace, owners, seq![mine], project, cause);
    assert(seq![mine][0] == mine);
    assert(seq![mine].contains(cause) == (cause == mine));
}

/// A reference to a changed asset has the import that names the asset traced by
/// every export that uses it, or by itself where none does, and by nothing else; where
/// no import names the asset, nothing is traced.
pub proof fn law_asset_reference_is_traced(
    workspace: WorkspaceView,
    index: IndexView,
    analysis: AnalysisView,
    asset: Seq<char>,
    source_file: Seq<char>,
    line: usize,
    i: int,
    file_name: Seq<char>,
    j: int,
    name: Seq<char>,
)
    requires
        is_file_of(workspace.files, source_file, i),
        last_name(asset) == Some(file_name) || (last_name(asset) is None && file_name.len() == 0),
    ensures
        ({
            let file = workspace.files[i];
            let after = analysis.after_job(
                workspace,
                index,
                JobView::AssetReference { asset, source_file, line },
            ).jobs;
            let traced = JobView::Trace(seq![(i as usize, name)]);
            &&& analysis.jobs.is_prefix_of(after)
            &&& is_first_naming(file.imports, file_name, j) ==> after.skip(
                analysis.jobs.len() as int,
            ).contains(traced) == is_traced_for(file, file.imports[j].local_name, name)
            &&& is_first_naming(file.imports, file_name, j) ==> forall|t: int|
                analysis.jobs.len() <= t < after.len() ==> (#[trigger] after[t]) is Trace
                    && after[t]->Trace_0.len() == 1 && after[t]->Trace_0[0].0 == i as usize
            &&& (forall|k: int|
                0 <= k < file.imports.len() ==> !holds_text(
                    (#[trigger] file.imports[k]).from_module,
                    file_name,
                )) ==> after == analysis.jobs
        }),
{
    lemma_found(workspace.files, source_file, i);
    if file_name.len() == 0 {
        assert(file_name =~= Seq::<char>::empty());
    }
    let file = workspace.files[i];
    let more = asset_reference_jobs(workspace, asset, source_file);
    let after = analysis.after_job(
        workspace,
        index,
        JobView::AssetReference { asset, source_file, line },
    ).jobs;
    assert(after == analysis.jobs + more);
    assert(analysis.jobs =~= after.subrange(0, analysis.jobs.len() as int));
    assert(after.skip(analysis.jobs.len() as int) =~= more);
    if is_first_naming(file.imports, file_name, j) {
        lemma_import_naming(file.imports, file_name, 0, j);
        let local_name = file.imports[j].local_name;
        let names = symbols_behind(file, local_name);
        law_symbols_behind(file, local_name, name);
        assert(more == single_traces(i as usize, names));
        let traced = JobView::Trace(seq![(i as usize, name)]);
        if names.contains(name) {
            let k = choose|k: int| 0 <= k < names.len() && names[k] == name;
            assert(more[names.len() - 1 - k] == traced);
        }
        if more.contains(traced) {
            let t = choose|t: int| 0 <= t < more.len() && more[t] == traced;
            let k = names.len() - 1 - t;
            assert(more[t] == JobView::Trace(seq![(i as usize, names[k])]));
            assert(seq![(i as usize, names[k])][0] == seq![(i as usize, name)][0]);
            assert(names.contains(names[k]));
        }
        assert forall|t: int| analysis.jobs.len() <= t < after.len() implies (#[trigger] after[t])
            is Trace && after[t]->Trace_0.len() == 1 && after[t]->Trace_0[0].0 == i as usize by {
            assert(after[t] == more[t - analysis.jobs.len()]);
        }
    }
    if forall|k: int|
        0 <= k < file.imports.len() ==> !holds_text(
            (#[trigger] file.imports[k]).from_module,
            file_name,
        ) {
        lemma_no_naming(file.imports, file_name, 0);
        assert(after =~= analysis.jobs);
    }
}

/// A reference to a changed asset in a file that was not analyzed has nothing traced.
pub proof fn law_asset_reference_elsewhere(
    workspace: WorkspaceView,
    index: IndexView,
    analysis: AnalysisView,
    asset: Seq<char>,
    source_file: Seq<char>,
    line: usize,
)
    requires
        forall|k: int| !#[trigger] is_file_of(workspace.files, source_file, k),
    ensures
        analysis.after_job(
            workspace,
            index,
            JobView::AssetReference { asset, source_file, line },
        ).jobs == analysis.jobs,
{
    if let Some(k) = file_number(workspace.files, source_file, 0) {
        lemma_found(workspace.files, source_file, k);
        assert(is_file_of(workspace.files, source_file, k));
    }
    let after = analysis.after_job(
        workspace,
        index,
        JobView::AssetReference { asset, source_file, line },
    ).jobs;
    assert(after =~= analysis.jobs);
}

/// The changed dependency of a module is that of the first match that names the
/// module; a module that no match names has none.
pub proof fn law_dependency_of(matches: Seq<ModuleMatch>, module: Seq<char>, from: int)
    requires
        0 <= from,
    ensures
        match dependency_of(matches, module, from) {
            Some(dependency) => exists|k: int|
                from <= k < matches.len() && (#[trigger] matches[k]).from_module@ == module
                    && matches[k].dependency@ == dependency && forall|l: int|
                    from <= l < k ==> (#[trigger] matches[l]).from_module@ != module,
            None => forall|k: int|
                from <= k < matches.len() ==> (#[trigger] matches[k]).from_module@ != module,
        },
    decreases matches.len() - from,
{
    if from < matches.len() {
        law_dependency_of(matches, module, from + 1);
        if matches[from].from_module@ != module {
            if let Some(dependency) = dependency_of(matches, module, from + 1) {
                let k = choose|k: int|
                    from + 1 <= k < matches.len() && (#[trigger] matches[k]).from_module@ == module
                        && matches[k].dependency@ == dependency && forall|l: int|
                        from + 1 <= l < k ==> (#[trigger] matches[l]).from_module@ != module;
                assert(matches[k].from_module@ == module);
            }
        }
    }
}

/// Whether some match names a module.
pub open spec fn is_matched(matches: Seq<ModuleMatch>, module: Seq<char>) -> bool {
    exists|k: int| 0 <= k < matches.len() && (#[trigger] matches[k]).from_module@ == module
}

/// A module has a changed dependency exactly where some match names it.
proof fn lemma_matched(matches: Seq<ModuleMatch>, module: Seq<char>)
    ensures
        dependency_of(matches, module, 0) is Some == is_matched(matches, module),
{
    law_dependency_of(matches, module, 0);
}

/// The causes of a file by changed dependencies are one for each import of one.
proof fn lemma_lockfile_causes(
    file: AnalyzedView,
    matches: Seq<ModuleMatch>,
    upto: nat,
    cause: CauseView,
)
    requires
        upto <= file.imports.len(),
    ensures
        lockfile_causes(file, matches, upto).contains(cause) == exists|j: int|
            0 <= j < upto && dependency_of(matches, (#[trigger] file.imports[j]).from_module, 0)
                is Some && cause == (CauseView::LockfileChange {
                dependency: dependency_of(matches, file.imports[j].from_module, 0)->0,
                importing_file: file.relative_path,
            }),
        (lockfile_causes(file, matches, upto).len() > 0) == exists|j: int|
            0 <= j < upto && is_matched(matches, (#[trigger] file.imports[j]).from_module),
    decreases upto,
{
    if upto > 0 {
        lemma_lockfile_causes(file, matches, (upto - 1) as nat, cause);
        lemma_matched(matches, file.imports[upto - 1].from_module);
        let before = lockfile_causes(file, matches, (upto - 1) as nat);
        if dependency_of(matches, file.imports[upto - 1].from_module, 0) is Some {
            lemma_pushed(before, lockfile_causes(file, matches, upto).last(), cause);
        }
    }
}

/// Whether a file imports a module that some match names.
pub open spec fn imports_matched(file: AnalyzedView, matches: Seq<ModuleMatch>) -> bool {
    exists|j: int|
        0 <= j < file.imports.len() && is_matched(matches, (#[trigger] file.imports[j]).from_module)
}

/// Whether an import of a file brings a cause by a changed dependency.
pub open spec fn brings_dependency(
    file: AnalyzedView,
    matches: Seq<ModuleMatch>,
    cause: CauseView,
) -> bool {
    exists|j: int, k: int|
        0 <= j < file.imports.len() && 0 <= k < matches.len() && #[trigger] matches[k].from_module@
            == #[trigger] file.imports[j].from_module && (forall|l: int|
            0 <= l < k ==> (#[trigger] matches[l]).from_module@ != file.imports[j].from_module)
            && cause == (CauseView::LockfileChange {
            dependency: matches[k].dependency@,
            importing_file: file.relative_path,
        })
}

/// The causes by changed dependencies, told from the matches.
proof fn lemma_brings_dependency(file: AnalyzedView, matches: Seq<ModuleMatch>, cause: CauseView)
    ensures
        lockfile_causes(file, matches, file.imports.len()).contains(cause) == brings_dependency(
            file,
            matches,
            cause,
        ),
{
    let n = file.imports.len();
    lemma_lockfile_causes(file, matches, n, cause);
    if lockfile_causes(file, matches, n).contains(cause) {
        let j = choose|j: int|
            0 <= j < n && dependency_of(matches, (#[trigger] file.imports[j]).from_module, 0) is Some
                && cause == (CauseView::LockfileChange {
                dependency: dependency_of(matches, file.imports[j].from_module, 0)->0,
                importing_file: file.relative_path,
            });
        let module = file.imports[j].from_module;
        law_dependency_of(matches, module, 0);
        let k = choose|k: int|
            0 <= k < matches.len() && (#[trigger] matches[k]).from_module@ == module
                && matches[k].dependency@ == dependency_of(matches, module, 0)->0 && forall|l: int|
                0 <= l < k ==> (#[trigger] matches[l]).from_module@ != module;
        assert(matches[k].from_module@ == file.imports[j].from_module);
    }
    if brings_dependency(file, matches, cause) {
        let (j, k) = choose|j: int, k: int|
            0 <= j < file.imports.len() && 0 <= k < matches.len()
                && #[trigger] matches[k].from_module@ == #[trigger] file.imports[j].from_module && (
            forall|l: int|
                0 <= l < k ==> (#[trigger] matches[l]).from_module@ != file.imports[j].from_module)
                && cause == (CauseView::LockfileChange {
                dependency: matches[k].dependency@,
                importing_file: file.relative_path,
            });
        let module = file.imports[j].from_module;
        law_dependency_of(matches, module, 0);
        let d = choose|d: int|
            0 <= d < matches.len() && (#[trigger] matches[d]).from_module@ == module
                && matches[d].dependency@ == dependency_of(matches, module, 0)->0 && forall|l: int|
                0 <= l < d ==> (#[trigger] matches[l]).from_module@ != module;
        if d < k {
            assert(matches[d].from_module@ != module);
        }
        if k < d {
            assert(matches[k].from_module@ != module);
        }
        assert(file.imports[j].from_module == module);
    }
}

/// Changed dependencies mark every project that a file counts for which imports one
/// of them, and no other, and record each import for these projects.
pub proof fn law_dependencies_mark(
    workspace: WorkspaceView,
    index: IndexView,
    trace: TraceView,
    matches: Seq<ModuleMatch>,
    upto: nat,
    project: Seq<char>,
    cause: CauseView,
)
    requires
        upto <= workspace.files.len(),
    ensures
        ({
            let after = lockfile_marked(workspace, index, trace, matches, upto);
            &&& after.generate_report == trace.generate_report
            &&& after.affected.contains(project) == (trace.affected.contains(project) || exists|
                f: int,
            |
                0 <= f < upto && imports_matched(#[trigger] workspace.files[f], matches)
                    && index.owners(workspace.files[f].relative_path, false).contains(project))
            &&& trace.generate_report ==> list_of(after.causes, project).contains(cause) == (
            list_of(trace.causes, project).contains(cause) || exists|f: int|
                0 <= f < upto && brings_dependency(#[trigger] workspace.files[f], matches, cause)
                    && index.owners(workspace.files[f].relative_path, false).contains(project))
        }),
    decreases upto,
{
    if upto > 0 {
        law_dependencies_mark(
            workspace,
            index,
            trace,
            matches,
            (upto - 1) as nat,
            project,
            cause,
        );
        let before = lockfile_marked(workspace, index, trace, matches, (upto - 1) as nat);
        let file = workspace.files[upto - 1];
        let causes = lockfile_causes(file, matches, file.imports.len());
        let owners = index.owners(file.relative_path, false);
        assert(owners.to_set().contains(project) == owners.contains(project));
        lemma_lockfile_causes(file, matches, file.imports.len(), cause);
        lemma_brings_dependency(file, matches, cause);
        lemma_marked_pairs(before, owners, causes, project, cause);
        if causes.len() == 0 {
            assert(!causes.contains(cause));
        }
    }
}

/// The symbols of a file that changed dependencies are traced by are those behind
/// each import of one.
proof fn lemma_lockfile_symbols(
    file: AnalyzedView,
    matches: Seq<ModuleMatch>,
    upto: nat,
    name: Seq<char>,
)
    requires
        upto <= file.imports.len(),
    ensures
        lockfile_symbols(file, matches, upto).contains(name) == exists|j: int|
            0 <= j < upto && is_matched(matches, (#[trigger] file.imports[j]).from_module)
                && symbols_behind(file, file.imports[j].local_name).contains(name),
    decreases upto,
{
    if upto > 0 {
        lemma_lockfile_symbols(file, matches, (upto - 1) as nat, name);
        lemma_matched(matches, file.imports[upto - 1].from_module);
        lemma_joined(
            lockfile_symbols(file, matches, (upto - 1) as nat),
            symbols_behind(file, file.imports[upto - 1].local_name),
            name,
        );
    }
}

/// The symbols of the first files.
proof fn lemma_all_lockfile_symbols(
    workspace: WorkspaceView,
    matches: Seq<ModuleMatch>,
    upto: nat,
    m: (usize, Seq<char>),
)
    requires
        upto <= workspace.files.len(),
    ensures
        all_lockfile_symbols(workspace, matches, upto).contains(m) == exists|f: int, j: int|
            0 <= f < upto && m.0 == f as usize && 0 <= j < workspace.files[f].imports.len()
                && is_matched(matches, (#[trigger] workspace.files[f].imports[j]).from_module)
                && symbols_behind(
                workspace.files[f],
                workspace.files[f].imports[j].local_name,
            ).contains(m.1),
    decreases upto,
{
    if upto > 0 {
        lemma_all_lockfile_symbols(workspace, matches, (upto - 1) as nat, m);
        let f = upto - 1;
        let file = workspace.files[f];
        let names = lockfile_symbols(file, matches, file.imports.len());
        lemma_lockfile_symbols(file, matches, file.imports.len(), m.1);
        lemma_symbols_of(f as usize, names, m);
        lemma_joined(
            all_lockfile_symbols(workspace, matches, (upto - 1) as nat),
            symbols_of(f as usize, names),
            m,
        );
        if names.contains(m.1) {
            let j = choose|j: int|
                0 <= j < file.imports.len() && is_matched(
                    matches,
                    (#[trigger] file.imports[j]).from_module,
                ) && symbols_behind(file, file.imports[j].local_name).contains(m.1);
            assert(workspace.files[f].imports[j].from_module == file.imports[j].from_module);
        }
        if exists|g: int, j: int|
            0 <= g < upto && m.0 == g as usize && 0 <= j < workspace.files[g].imports.len()
                && is_matched(matches, (#[trigger] workspace.files[g].imports[j]).from_module)
                && symbols_behind(
                workspace.files[g],
                workspace.files[g].imports[j].local_name,
            ).contains(m.1) {
            let (g, j) = choose|g: int, j: int|
                0 <= g < upto && m.0 == g as usize && 0 <= j < workspace.files[g].imports.len()
                    && is_matched(matches, (#[trigger] workspace.files[g].imports[j]).from_module)
                    && symbols_behind(
                    workspace.files[g],
                    workspace.files[g].imports[j].local_name,
                ).contains(m.1);
            if g == f {
                assert(file.imports[j].from_module == workspace.files[g].imports[j].from_module);
            }
        }
    }
}

/// Under the full strategy every import of a changed dependency, in every file, is
/// traced by what stands behind it, and nothing else is; under the others nothing is
/// traced. Where the dependencies cannot be told, nothing changes.
pub proof fn law_dependencies_are_traced(
    workspace: WorkspaceView,
    index: IndexView,
    analysis: AnalysisView,
    matches: Seq<ModuleMatch>,
    m: (usize, Seq<char>),
)
    requires
        analysis.waiting == WaitingView::Dependencies,
    ensures
        ({
            let after = analysis.dependencies_answered(workspace, index, Some(matches));
            let traced = exists|f: int, j: int|
                0 <= f < workspace.files.len() && m.0 == f as usize && 0 <= j
                    < workspace.files[f].imports.len() && is_matched(
                    matches,
                    (#[trigger] workspace.files[f].imports[j]).from_module,
                ) && is_traced_for(
                    workspace.files[f],
                    workspace.files[f].imports[j].local_name,
                    m.1,
                );
            &&& after.waiting == WaitingView::Nothing
            &&& analysis.jobs.is_prefix_of(after.jobs)
            &&& analysis.strategy != LockfileStrategy::Full ==> after.jobs == analysis.jobs
            &&& analysis.strategy == LockfileStrategy::Full ==> traced == (after.jobs.len()
                == analysis.jobs.len() + 1 && after.jobs.last() is Trace
                && after.jobs.last()->Trace_0.contains(m))
            &&& analysis.dependencies_answered(workspace, index, None) == (AnalysisView {
                waiting: WaitingView::Nothing,
                ..analysis
            })
        }),
{
    let after = analysis.dependencies_answered(workspace, index, Some(matches));
    let symbols = all_lockfile_symbols(workspace, matches, workspace.files.len());
    lemma_all_lockfile_symbols(workspace, matches, workspace.files.len(), m);
    assert forall|f: int, j: int|
        0 <= f < workspace.files.len() && 0 <= j
            < workspace.files[f].imports.len() implies is_traced_for(
        workspace.files[f],
        (#[trigger] workspace.files[f].imports[j]).local_name,
        m.1,
    ) == symbols_behind(
        workspace.files[f],
        workspace.files[f].imports[j].local_name,
    ).contains(m.1) by {
        law_symbols_behind(
            workspace.files[f],
            workspace.files[f].imports[j].local_name,
            m.1,
        );
    }
    assert(analysis.jobs =~= after.jobs.subrange(0, analysis.jobs.len() as int));
    if analysis.strategy == LockfileStrategy::Full && symbols.len() > 0 {
        assert(after.jobs.last() == JobView::Trace(symbols));
    }
}

/// A reference to a symbol in another file affects every project that it counts for,
/// and no other, and tells each of them where the symbol comes from: from every
/// project that the symbol's file counts for. Where it counts for none, its owners,
/// or nobody, are held ready instead.
pub proof fn law_reference_marks(
    workspace: WorkspaceView,
    index: IndexView,
    trace: TraceView,
    symbol: (usize, Seq<char>),
    reference: ReferenceView,
    project: Seq<char>,
    cause: CauseView,
)
    requires
        symbol.0 < workspace.files.len(),
    ensures
        ({
            let source_file = workspace.files[symbol.0 as int].relative_path;
            let after = trace.reference_marked(workspace, index, symbol, reference);
            let counts = index.owners(reference.file_path, false).contains(project);
            let told = cause matches CauseView::ImportedSymbol {
                source_project,
                symbol: s,
                via_file,
                source_file: f,
            } && s == symbol.1 && via_file == reference.file_path && f == source_file;
            let source = cause->source_project;
            let owners = index.owners(source_file, true);
            &&& after.affected.contains(project) == (trace.affected.contains(project) || counts)
            &&& trace.generate_report ==> list_of(after.causes, project).contains(cause) == (
            list_of(trace.causes, project).contains(cause) || (counts && told && index.owners(
                source_file,
                false,
            ).contains(source)))
            &&& trace.generate_report ==> list_of(after.spare, project).contains(cause) == (list_of(
                trace.spare,
                project,
            ).contains(cause) || (counts && told && index.owners(source_file, false).len() == 0 && (
            owners.contains(source) || (owners.len() == 0 && source.len() == 0))))
            &&& !trace.generate_report ==> after.causes == trace.causes && after.spare
                == trace.spare
        }),
{
    let source_file = workspace.files[symbol.0 as int].relative_path;
    let projects = index.owners(reference.file_path, false);
    let sources = index.owners(source_file, false);
    let spare = crate::trace::spare_projects(index, source_file);
    assert(projects.to_set().contains(project) == projects.contains(project));
    let causes = crate::trace::import_causes(workspace, index, symbol, reference);
    let held = crate::trace::spare_causes(workspace, index, symbol, reference);
    let marked = trace.marked(projects, causes);
    lemma_marked_pairs(trace, projects, causes, project, cause);
    lemma_marked_pairs(marked, projects, held, project, cause);
    lemma_imported_from(workspace, sources, symbol, reference, cause);
    lemma_imported_from(workspace, spare, symbol, reference, cause);
    let source = cause->source_project;
    assert(spare.contains(source) == (index.owners(source_file, true).contains(source) || (
    index.owners(source_file, true).len() == 0 && source.len() == 0))) by {
        if index.owners(source_file, true).len() == 0 {
            assert(spare[0] == Seq::<char>::empty());
            if source.len() == 0 {
                assert(source =~= spare[0]);
            }
            assert(!index.owners(source_file, true).contains(source));
        } else if source.len() == 0 && spare.contains(source) {
        }
    }
}

/// The causes of an imported symbol name each of the given projects.
proof fn lemma_imported_from(
    workspace: WorkspaceView,
    projects: Seq<Seq<char>>,
    symbol: (usize, Seq<char>),
    reference: ReferenceView,
    cause: CauseView,
)
    ensures
        imported_from(workspace, projects, symbol, reference).contains(cause) == (
        cause matches CauseView::ImportedSymbol {
            source_project,
            symbol: s,
            via_file,
            source_file,
        } && projects.contains(source_project) && s == symbol.1 && via_file == reference.file_path
            && source_file == path_of_symbol(workspace, symbol)),
{
    let all = imported_from(workspace, projects, symbol, reference);
    if all.contains(cause) {
        let k = choose|k: int| 0 <= k < all.len() && all[k] == cause;
        assert(projects.contains(projects[k]));
    }
    if let CauseView::ImportedSymbol { source_project, symbol: s, via_file, source_file } = cause {
        if projects.contains(source_project) && s == symbol.1 && via_file == reference.file_path
            && source_file == path_of_symbol(workspace, symbol) {
            let k = choose|k: int| 0 <= k < projects.len() && projects[k] == source_project;
            assert(all[k] == cause);
        }
    }
}

/// Where the references to a symbol cannot be found, what is left of the current
/// root is given up, and the other roots stay; nothing that was marked is taken back.
pub proof fn law_failed_search(workspace: WorkspaceView, trace: TraceView)
    requires
        trace.asking is Some,
    ensures
        ({
            let after = trace.answered(workspace, None);
            &&& after.asking is None
            &&& after.pending.len() == 0
            &&& after.roots == trace.roots
            &&& after.visited == trace.visited
            &&& after.affected == trace.affected
            &&& after.causes == trace.causes
            &&& after.spare == trace.spare
        }),
{
}

} // verus!
