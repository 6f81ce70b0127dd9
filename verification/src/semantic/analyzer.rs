//! The analyzed files of a workspace, and what can be asked of them.
use crate::error::DominoError;
use crate::fx::{contains_name, insert_name, names_in, no_names, no_numbers, number_of, numbers_in, set_number};
use crate::paths::{normal, normalize};
use crate::semantic::import_index::{
    import_requests, index_imports, indexed, request_views, requests_in, ImportIndex,
    ImportRequest, ImporterView, RequestView, Resolution, Surroundings,
};
use crate::semantic::module_graph::{
    all_exports, all_imports, export_views, extract_exports, extract_imports, import_views,
};
use crate::semantic::naming::{find_names_at, innermost, names_at};
use crate::semantic::syntax::{
    node_views, parse, parsed_nodes, parsed_symbols, symbol_views, NodeKind, NodeView, Symbol,
    SymbolView, SyntaxNode,
};
use crate::text::{byte_len, same, texts};
use crate::types::{
    text_in, Export, ExportView, Import, ImportView, Project, Reference, ReferenceView,
};
use crate::utils::{
    lemma_far_lines, lemma_set_push, line_col, line_offset, line_to_offset, offset_to_line_col,
};
use rustc_hash::{FxHashMap, FxHashSet};
use vstd::prelude::*;

verus! {

/// Semantic data for a single file
pub struct FileSemanticData {
    pub source: String,
    pub nodes: Vec<SyntaxNode>,
    pub symbols: Vec<Symbol>,
}

/// What a [`FileSemanticData`] stands for.
#[verifier::ext_equal]
pub struct FileView {
    pub source: Seq<char>,
    pub nodes: Seq<NodeView>,
    pub symbols: Seq<SymbolView>,
}

impl View for FileSemanticData {
    type V = FileView;

    open spec fn view(&self) -> FileView {
        FileView {
            source: self.source@,
            nodes: node_views(self.nodes@),
            symbols: symbol_views(self.symbols@),
        }
    }
}

/// A file with everything that is needed of it.
pub struct AnalyzedFile {
    /// Path of the file (relative to workspace root)
    pub relative_path: String,
    pub file_data: FileSemanticData,
    pub imports: Vec<Import>,
    pub exports: Vec<Export>,
}

/// What an [`AnalyzedFile`] stands for.
#[verifier::ext_equal]
pub struct AnalyzedView {
    pub relative_path: Seq<char>,
    pub file_data: FileView,
    pub imports: Seq<ImportView>,
    pub exports: Seq<ExportView>,
}

impl View for AnalyzedFile {
    type V = AnalyzedView;

    open spec fn view(&self) -> AnalyzedView {
        AnalyzedView {
            relative_path: self.relative_path@,
            file_data: self.file_data@,
            imports: import_views(self.imports@),
            exports: export_views(self.exports@),
        }
    }
}

/// What a file's syntax tree and symbols tell of it.
pub open spec fn analyzed(
    source: Seq<char>,
    nodes: Seq<NodeView>,
    symbols: Seq<SymbolView>,
    relative_path: Seq<char>,
) -> AnalyzedView {
    AnalyzedView {
        relative_path,
        file_data: FileView { source, nodes, symbols },
        imports: all_imports(nodes),
        exports: all_exports(nodes),
    }
}

/// What a list of files stands for.
pub open spec fn file_views(files: Seq<AnalyzedFile>) -> Seq<AnalyzedView> {
    files.map_values(|file: AnalyzedFile| file@)
}

/// A file with its imports and exports, from its syntax tree and symbols.
pub fn assemble_file(
    source: String,
    nodes: Vec<SyntaxNode>,
    symbols: Vec<Symbol>,
    relative_path: String,
) -> (r: AnalyzedFile)
    ensures
        r@ == analyzed(source@, node_views(nodes@), symbol_views(symbols@), relative_path@),
{
    let imports: Vec<Import> = extract_imports(&nodes);
    let exports: Vec<Export> = extract_exports(&nodes);
    AnalyzedFile {
        relative_path,
        file_data: FileSemanticData { source, nodes, symbols },
        imports,
        exports,
    }
}

/// Parse a single file independently: its path decides on the dialect.
pub fn parse_single_file(source: String, file_path: &str, relative_path: String) -> (r: AnalyzedFile)
    ensures
        r@ == analyzed(
            source@,
            parsed_nodes(source@, file_path@),
            parsed_symbols(source@, file_path@),
            relative_path@,
        ),
{
    let (nodes, symbols) = parse(source.as_str(), file_path);
    assemble_file(source, nodes, symbols, relative_path)
}

/// The number of the first file, from `from` on, that has a path.
pub open spec fn file_number(files: Seq<AnalyzedView>, path: Seq<char>, from: int) -> Option<int>
    decreases files.len() - from,
{
    if from >= files.len() {
        None
    } else if normal(files[from].relative_path) == normal(path) {
        Some(from)
    } else {
        file_number(files, path, from + 1)
    }
}

/// The number of a file is that of one with its path, and there is none before.
proof fn lemma_file_number(files: Seq<AnalyzedView>, path: Seq<char>, from: int)
    requires
        0 <= from,
    ensures
        match file_number(files, path, from) {
            Some(i) => from <= i < files.len() && normal(files[i].relative_path) == normal(path)
                && forall|k: int|
                from <= k < i ==> normal((#[trigger] files[k]).relative_path) != normal(path),
            None => forall|k: int|
                from <= k < files.len() ==> normal((#[trigger] files[k]).relative_path) != normal(
                    path,
                ),
        },
    decreases files.len() - from,
{
    if from < files.len() && normal(files[from].relative_path) != normal(path) {
        lemma_file_number(files, path, from + 1);
    }
}

/// The references to a symbol at given offsets of a file.
pub open spec fn references_at(file: FileView, path: Seq<char>, offsets: Seq<usize>) -> Seq<
    ReferenceView,
> {
    offsets.map_values(|offset: usize| reference_at(file, path, offset))
}

/// The reference at an offset of a file: its line counted from 1, its column
/// from 0.
pub open spec fn reference_at(file: FileView, path: Seq<char>, offset: usize) -> ReferenceView {
    let place = line_col(file.source, offset as nat);
    ReferenceView { file_path: path, line: place.0 as usize, column: (place.1 - 1) as usize }
}

/// The references in a file to the symbols of a name, among the first `upto`
/// symbols.
pub open spec fn local_references(
    file: FileView,
    path: Seq<char>,
    name: Seq<char>,
    upto: nat,
) -> Seq<ReferenceView>
    decreases upto,
{
    if upto == 0 {
        Seq::empty()
    } else {
        let before = local_references(file, path, name, (upto - 1) as nat);
        let symbol = file.symbols[upto - 1];
        if symbol.name == name {
            before + references_at(file, path, symbol.references)
        } else {
            before
        }
    }
}

/// Whether a node reads a property of a namespace.
pub open spec fn is_member_access(node: NodeView, namespace: Seq<char>, property: Seq<char>) -> bool {
    (node.kind == NodeKind::StaticMember || node.kind == NodeKind::QualifiedName) && node.name
        == Some(property) && node.local == Some(namespace)
}

/// The reads of a property of a namespace among the first `upto` nodes.
pub open spec fn member_accesses(
    file: FileView,
    path: Seq<char>,
    namespace: Seq<char>,
    property: Seq<char>,
    upto: nat,
) -> Seq<ReferenceView>
    decreases upto,
{
    if upto == 0 {
        Seq::empty()
    } else {
        let before = member_accesses(file, path, namespace, property, (upto - 1) as nat);
        let node = file.nodes[upto - 1];
        if is_member_access(node, namespace, property) {
            before.push(reference_at(file, path, node.start))
        } else {
            before
        }
    }
}

/// The names of the declarations that a line and column of a file belong to;
/// lines count from 1, columns from 0.
pub open spec fn names_on_line(file: FileView, line: nat, column: nat) -> Seq<Seq<char>> {
    let low = line_offset(file.source, line);
    let after = line_offset(file.source, line + 1);
    names_at(
        file.nodes,
        low + column,
        low,
        if after > 0 {
            (after - 1) as nat
        } else {
            0
        },
    )
}

/// The names of the declarations that a reference in a file belongs to. The place
/// behind its first character counts: what ends where the reference begins does
/// not hold it.
pub open spec fn names_around(file: FileView, reference: ReferenceView) -> Seq<Seq<char>> {
    names_on_line(file, reference.line as nat, reference.column as nat + 1)
}

/// The names of the declarations that hold the first `upto` of some references.
pub open spec fn containers(file: FileView, references: Seq<ReferenceView>, upto: nat) -> Set<
    Seq<char>,
>
    decreases upto,
{
    if upto == 0 {
        Set::empty()
    } else {
        containers(file, references, (upto - 1) as nat) + names_around(
            file,
            references[upto - 1],
        ).to_set()
    }
}

/// The name of what an export exports, in its file.
pub open spec fn local_export_name(export: ExportView) -> Seq<char> {
    match export.local_name {
        Some(name) => name,
        None => export.exported_name,
    }
}

/// The exported names among the first `upto` exports whose declaration is among
/// the given ones; re-exports and the symbol itself do not count.
pub open spec fn exports_among(
    exports: Seq<ExportView>,
    symbol: Seq<char>,
    declarations: Set<Seq<char>>,
    upto: nat,
) -> Seq<Seq<char>>
    decreases upto,
{
    if upto == 0 {
        Seq::empty()
    } else {
        let before = exports_among(exports, symbol, declarations, (upto - 1) as nat);
        let export = exports[upto - 1];
        if export.re_export_from is None && local_export_name(export) != symbol
            && declarations.contains(local_export_name(export)) {
            before.push(export.exported_name)
        } else {
            before
        }
    }
}

/// The references in a file to the symbols of a name.
pub open spec fn all_local_references(file: FileView, path: Seq<char>, name: Seq<char>) -> Seq<
    ReferenceView,
> {
    local_references(file, path, name, file.symbols.len())
}

/// The exported symbols of a file whose declarations refer to a symbol.
pub open spec fn exports_using(file: AnalyzedView, symbol: Seq<char>) -> Seq<Seq<char>> {
    let references = all_local_references(file.file_data, file.relative_path, symbol);
    exports_among(
        file.exports,
        symbol,
        containers(file.file_data, references, references.len()),
        file.exports.len(),
    )
}

/// Whether an export exports a symbol, under this or another name.
pub open spec fn exports_symbol(export: ExportView, symbol: Seq<char>) -> bool {
    export.exported_name == symbol || export.local_name == Some(symbol)
}

/// Whether a file exports a symbol.
pub open spec fn is_exported(file: AnalyzedView, symbol: Seq<char>) -> bool {
    exists|i: int| 0 <= i < file.exports.len() && exports_symbol(#[trigger] file.exports[i], symbol)
}

/// What a list of references stands for.
pub open spec fn reference_views(references: Seq<Reference>) -> Seq<ReferenceView> {
    references.map_values(|reference: Reference| reference@)
}

/// Lines and columns of a file fit into a machine word.
proof fn lemma_place_fits(file: FileView, path: Seq<char>, offset: usize, line: usize, col: usize)
    requires
        line == line_col(file.source, offset as nat).0,
        col == line_col(file.source, offset as nat).1,
    ensures
        reference_at(file, path, offset) == (ReferenceView {
            file_path: path,
            line,
            column: (col - 1) as usize,
        }),
        col >= 1,
{
}

impl FileSemanticData {
    /// The reference at an offset of the file.
    fn reference_from(&self, path: &str, offset: usize) -> (r: Reference)
        requires
            byte_len(self.source@) < usize::MAX,
        ensures
            r@ == reference_at(self@, path@, offset),
    {
        let (line, col) = offset_to_line_col(self.source.as_str(), offset);
        proof {
            lemma_place_fits(self@, path@, offset, line, col);
        }
        Reference { file_path: path.to_owned(), line, column: col - 1 }
    }

    /// The references in the file to the symbols of a name.
    pub fn references_to(&self, path: &str, symbol_name: &str) -> (r: Vec<Reference>)
        requires
            byte_len(self.source@) < usize::MAX,
        ensures
            reference_views(r@) == all_local_references(self@, path@, symbol_name@),
    {
        let mut r: Vec<Reference> = Vec::new();
        let mut i: usize = 0;
        proof {
            assert(reference_views(r@) =~= Seq::<ReferenceView>::empty());
        }
        while i < self.symbols.len()
            invariant
                byte_len(self.source@) < usize::MAX,
                i <= self.symbols@.len(),
                reference_views(r@) == local_references(self@, path@, symbol_name@, i as nat),
            decreases self.symbols@.len() - i,
        {
            let symbol: &Symbol = &self.symbols[i];
            let ghost before = reference_views(r@);
            let ghost found = references_at(self@, path@, symbol.references@);
            proof {
                assert(self@.symbols[i as int] == symbol@);
            }
            if same(symbol.name.as_str(), symbol_name) {
                let mut j: usize = 0;
                proof {
                    assert(before + found.take(0) =~= before);
                }
                while j < symbol.references.len()
                    invariant
                        byte_len(self.source@) < usize::MAX,
                        j <= symbol.references@.len(),
                        found == references_at(self@, path@, symbol.references@),
                        reference_views(r@) == before + found.take(j as int),
                    decreases symbol.references@.len() - j,
                {
                    let reference: Reference = self.reference_from(path, symbol.references[j]);
                    let ghost current = r@;
                    r.push(reference);
                    proof {
                        assert(reference_views(r@) =~= reference_views(current).push(reference@));
                        assert(found.take(j + 1) =~= found.take(j as int).push(reference@));
                        assert(reference_views(r@) =~= before + found.take(j + 1));
                    }
                    j = j + 1;
                }
                proof {
                    assert(found.take(found.len() as int) =~= found);
                }
            }
            i = i + 1;
        }
        r
    }

    /// The reads of a property of a namespace in the file.
    pub fn member_accesses_to(&self, path: &str, namespace_name: &str, property_name: &str) -> (r:
        Vec<Reference>)
        requires
            byte_len(self.source@) < usize::MAX,
        ensures
            reference_views(r@) == member_accesses(
                self@,
                path@,
                namespace_name@,
                property_name@,
                self@.nodes.len(),
            ),
    {
        let mut r: Vec<Reference> = Vec::new();
        let mut i: usize = 0;
        proof {
            assert(reference_views(r@) =~= Seq::<ReferenceView>::empty());
        }
        while i < self.nodes.len()
            invariant
                byte_len(self.source@) < usize::MAX,
                i <= self.nodes@.len(),
                reference_views(r@) == member_accesses(
                    self@,
                    path@,
                    namespace_name@,
                    property_name@,
                    i as nat,
                ),
            decreases self.nodes@.len() - i,
        {
            let node: &SyntaxNode = &self.nodes[i];
            proof {
                assert(self@.nodes[i as int] == node@);
            }
            let accesses: bool = node.kind == NodeKind::StaticMember || node.kind
                == NodeKind::QualifiedName;
            if accesses && holds_text(&node.name, property_name) && holds_text(
                &node.local,
                namespace_name,
            ) {
                let reference: Reference = self.reference_from(path, node.start);
                let ghost before = r@;
                r.push(reference);
                proof {
                    assert(reference_views(r@) =~= reference_views(before).push(reference@));
                }
            }
            i = i + 1;
        }
        r
    }

    /// The names of the declarations that a line and column of the file belong
    /// to.
    pub fn names_on(&self, line: usize, column: usize) -> (r: Vec<String>)
        requires
            byte_len(self.source@) < usize::MAX,
        ensures
            texts(r@) == names_on_line(self@, line as nat, column as nat),
    {
        let low: usize = match line_to_offset(self.source.as_str(), line) {
            Some(offset) => offset,
            None => 0,
        };
        let after: usize = if line == usize::MAX {
            // No text has so many lines: the next line begins where this one does.
            proof {
                lemma_far_lines(self.source@, line as nat);
            }
            low
        } else {
            match line_to_offset(self.source.as_str(), line + 1) {
                Some(offset) => offset,
                None => 0,
            }
        };
        let high: usize = if after > 0 {
            after - 1
        } else {
            0
        };
        if column > usize::MAX - low {
            let none: Vec<String> = Vec::new();
            proof {
                lemma_beyond(self@.nodes, (low + column) as nat, self@.nodes.len());
                assert(texts(none@) =~= Seq::<Seq<char>>::empty());
            }
            return none;
        }
        find_names_at(&self.nodes, low + column, low, high)
    }

    /// The names of the declarations that a reference in the file belongs to.
    pub fn names_around_reference(&self, reference: &Reference) -> (r: Vec<String>)
        requires
            byte_len(self.source@) < usize::MAX,
        ensures
            texts(r@) == names_around(self@, reference@),
    {
        if reference.column == usize::MAX {
            let none: Vec<String> = Vec::new();
            proof {
                let low = line_offset(self@.source, reference.line as nat);
                lemma_beyond(self@.nodes, low + usize::MAX as nat + 1, self@.nodes.len());
                assert(texts(none@) =~= Seq::<Seq<char>>::empty());
            }
            return none;
        }
        self.names_on(reference.line, reference.column + 1)
    }
}

/// No node reaches an offset beyond a machine word.
proof fn lemma_beyond(nodes: Seq<NodeView>, offset: nat, upto: nat)
    requires
        offset > usize::MAX,
    ensures
        innermost(nodes, offset, upto) is None,
    decreases upto,
{
    if upto > 0 {
        lemma_beyond(nodes, offset, (upto - 1) as nat);
    }
}

/// Whether an optional text is the given one.
fn holds_text(text: &Option<String>, wanted: &str) -> (r: bool)
    ensures
        r == (text_in(*text) == Some(wanted@)),
{
    match text {
        Some(t) => same(t.as_str(), wanted),
        None => false,
    }
}

impl AnalyzedFile {
    /// Whether the file exports a symbol.
    pub fn exports_named(&self, symbol_name: &str) -> (r: bool)
        ensures
            r == is_exported(self@, symbol_name@),
    {
        let mut i: usize = 0;
        while i < self.exports.len()
            invariant
                i <= self.exports@.len(),
                forall|k: int|
                    0 <= k < i ==> !exports_symbol(#[trigger] self@.exports[k], symbol_name@),
            decreases self.exports@.len() - i,
        {
            let export: &Export = &self.exports[i];
            proof {
                assert(self@.exports[i as int] == export@);
            }
            if same(export.exported_name.as_str(), symbol_name) || holds_text(
                &export.local_name,
                symbol_name,
            ) {
                return true;
            }
            i = i + 1;
        }
        false
    }

    /// The names of the declarations that hold some references.
    fn containers_of(&self, references: &Vec<Reference>) -> (r: FxHashSet<String>)
        requires
            byte_len(self.file_data.source@) < usize::MAX,
        ensures
            names_in(&r) == containers(
                self@.file_data,
                reference_views(references@),
                references@.len(),
            ),
    {
        let ghost views = reference_views(references@);
        let mut r: FxHashSet<String> = no_names();
        let mut i: usize = 0;
        while i < references.len()
            invariant
                byte_len(self.file_data.source@) < usize::MAX,
                views == reference_views(references@),
                i <= references@.len(),
                names_in(&r) == containers(self@.file_data, views, i as nat),
            decreases references@.len() - i,
        {
            let ghost before = names_in(&r);
            let names: Vec<String> = self.file_data.names_around_reference(&references[i]);
            let ghost all = texts(names@);
            proof {
                assert(views[i as int] == references@[i as int]@);
                assert(before + all.take(0).to_set() =~= before);
            }
            let mut j: usize = 0;
            while j < names.len()
                invariant
                    all == texts(names@),
                    j <= names@.len(),
                    names_in(&r) == before + all.take(j as int).to_set(),
                decreases names@.len() - j,
            {
                insert_name(&mut r, names[j].clone());
                proof {
                    assert(all.take(j + 1) =~= all.take(j as int).push(names@[j as int]@));
                    lemma_set_push(all.take(j as int), names@[j as int]@);
                    assert(names_in(&r) =~= before + all.take(j + 1).to_set());
                }
                j = j + 1;
            }
            proof {
                assert(all.take(all.len() as int) =~= all);
            }
            i = i + 1;
        }
        r
    }

    /// The exported symbols of the file whose declarations refer to a symbol.
    pub fn exported_symbols_using(&self, local_symbol: &str) -> (r: Vec<String>)
        requires
            byte_len(self.file_data.source@) < usize::MAX,
        ensures
            texts(r@) == exports_using(self@, local_symbol@),
    {
        let references: Vec<Reference> = self.file_data.references_to(
            self.relative_path.as_str(),
            local_symbol,
        );
        let holders: FxHashSet<String> = self.containers_of(&references);
        let mut r: Vec<String> = Vec::new();
        let mut i: usize = 0;
        proof {
            assert(texts(r@) =~= Seq::<Seq<char>>::empty());
            assert(reference_views(references@).len() == references@.len());
        }
        while i < self.exports.len()
            invariant
                i <= self.exports@.len(),
                texts(r@) == exports_among(
                    self@.exports,
                    local_symbol@,
                    names_in(&holders),
                    i as nat,
                ),
            decreases self.exports@.len() - i,
        {
            let export: &Export = &self.exports[i];
            proof {
                assert(self@.exports[i as int] == export@);
            }
            let local_name: &String = match &export.local_name {
                Some(name) => name,
                None => &export.exported_name,
            };
            if export.re_export_from.is_none() && !same(local_name.as_str(), local_symbol)
                && contains_name(&holders, local_name.as_str()) {
                let ghost before = r@;
                r.push(export.exported_name.clone());
                proof {
                    assert(texts(r@) =~= texts(before).push(export.exported_name@));
                }
            }
            i = i + 1;
        }
        r
    }
}

/// Workspace-wide semantic analysis
pub struct WorkspaceAnalyzer {
    /// The analyzed files, each path once.
    files: Vec<AnalyzedFile>,
    /// The number of each file, by its normal path.
    file_numbers: FxHashMap<String, usize>,
    /// Projects in the workspace
    projects: Vec<Project>,
    /// Reverse import index: what imports a symbol of a file.
    import_index: ImportIndex,
    /// tsconfig.base.json path alias keys (e.g. `@scope/my-lib`).
    /// Used alongside project names for the `is_workspace_specifier` check because
    /// Nx project names can differ from the npm package names / tsconfig aliases
    /// that code actually imports.
    tsconfig_path_prefixes: Vec<String>,
    resolve_package_exports: bool,
}

/// What a [`WorkspaceAnalyzer`] stands for.
#[verifier::ext_equal]
pub struct WorkspaceView {
    pub files: Seq<AnalyzedView>,
    pub projects: Seq<Project>,
    pub import_index: Map<(Seq<char>, Seq<char>), Seq<ImporterView>>,
    pub tsconfig_path_prefixes: Seq<String>,
    pub resolve_package_exports: bool,
}

impl View for WorkspaceAnalyzer {
    type V = WorkspaceView;

    closed spec fn view(&self) -> WorkspaceView {
        WorkspaceView {
            files: file_views(self.files@),
            projects: self.projects@,
            import_index: self.import_index@,
            tsconfig_path_prefixes: self.tsconfig_path_prefixes@,
            resolve_package_exports: self.resolve_package_exports,
        }
    }
}

/// The files with one file more, in place of an earlier one of its path.
pub open spec fn with_file(files: Seq<AnalyzedView>, file: AnalyzedView) -> Seq<AnalyzedView> {
    match file_number(files, file.relative_path, 0) {
        Some(i) => files.update(i, file),
        None => files.push(file),
    }
}

/// The files with a list of files more.
pub open spec fn with_files(files: Seq<AnalyzedView>, more: Seq<AnalyzedView>) -> Seq<AnalyzedView>
    decreases more.len(),
{
    if more.len() == 0 {
        files
    } else {
        with_file(with_files(files, more.drop_last()), more.last())
    }
}

/// The surroundings that a workspace's imports are resolved in.
pub open spec fn surroundings(workspace: WorkspaceView, cwd: Seq<char>) -> Surroundings {
    Surroundings {
        cwd,
        projects: workspace.projects,
        tsconfig_paths: workspace.tsconfig_path_prefixes,
    }
}

/// The requests for the imports of a workspace.
pub open spec fn workspace_requests(workspace: WorkspaceView, cwd: Seq<char>) -> Seq<RequestView> {
    requests_in(workspace.files, surroundings(workspace, cwd), workspace.files.len())
}

impl WorkspaceAnalyzer {
    /// Each file has its number, each number its file, and no source is longer
    /// than a machine word can count.
    #[verifier::type_invariant]
    spec fn inv(self) -> bool {
        let numbers = numbers_in(&self.file_numbers);
        &&& forall|i: int|
            0 <= i < self.files@.len() ==> numbers.contains_pair(
                normal((#[trigger] self.files@[i]).relative_path@),
                i as usize,
            )
        &&& forall|key: Seq<char>|
            numbers.dom().contains(key) ==> #[trigger] numbers[key] < self.files@.len() && normal(
                self.files@[numbers[key] as int].relative_path@,
            ) == key
        &&& forall|i: int|
            0 <= i < self.files@.len() ==> byte_len(
                (#[trigger] self.files@[i]).file_data.source@,
            ) < usize::MAX
    }

    /// Create a new workspace analyzer, of no file yet
    pub fn new(
        projects: Vec<Project>,
        tsconfig_path_prefixes: Vec<String>,
        resolve_package_exports: bool,
    ) -> (r: WorkspaceAnalyzer)
        ensures
            r@ == (WorkspaceView {
                files: Seq::empty(),
                projects: projects@,
                import_index: Map::empty(),
                tsconfig_path_prefixes: tsconfig_path_prefixes@,
                resolve_package_exports,
            }),
    {
        let files: Vec<AnalyzedFile> = Vec::new();
        let r: WorkspaceAnalyzer = WorkspaceAnalyzer {
            files,
            file_numbers: no_numbers(),
            projects,
            import_index: ImportIndex::new(),
            tsconfig_path_prefixes,
            resolve_package_exports,
        };
        proof {
            assert(r@.files =~= Seq::<AnalyzedView>::empty());
        }
        r
    }

    /// The number of a file.
    pub fn number_of_file(&self, file_path: &str) -> (r: Option<usize>)
        ensures
            match r {
                Some(i) => i < self@.files.len() && file_number(self@.files, file_path@, 0) == Some(
                    i as int,
                ),
                None => file_number(self@.files, file_path@, 0) is None,
            },
    {
        proof {
            use_type_invariant(self);
            lemma_file_number(self@.files, file_path@, 0);
        }
        let key: String = normalize(file_path);
        match number_of(&self.file_numbers, key.as_str()) {
            Some(i) => {
                proof {
                    let found = file_number(self@.files, file_path@, 0);
                    assert(self@.files[i as int] == self.files@[i as int]@);
                    assert(numbers_in(&self.file_numbers)[key@] == i);
                    if let Some(k) = found {
                        assert(self@.files[k] == self.files@[k]@);
                        assert(numbers_in(&self.file_numbers).contains_pair(
                            normal(self.files@[k].relative_path@),
                            k as usize,
                        ));
                    }
                }
                Some(i)
            },
            None => {
                proof {
                    if let Some(k) = file_number(self@.files, file_path@, 0) {
                        assert(self@.files[k] == self.files@[k]@);
                        assert(numbers_in(&self.file_numbers).contains_pair(
                            normal(self.files@[k].relative_path@),
                            k as usize,
                        ));
                    }
                }
                None
            },
        }
    }

    /// How many files were analyzed.
    pub fn file_count(&self) -> (r: usize)
        ensures
            r == self@.files.len(),
    {
        self.files.len()
    }

    /// A file, by its number.
    pub fn file(&self, number: usize) -> (r: &AnalyzedFile)
        requires
            number < self@.files.len(),
        ensures
            r@ == self@.files[number as int],
            byte_len(r.file_data.source@) < usize::MAX,
    {
        proof {
            use_type_invariant(self);
        }
        &self.files[number]
    }

    /// What imports a symbol of a file.
    pub fn import_index(&self) -> (r: &ImportIndex)
        ensures
            r@ == self@.import_index,
    {
        &self.import_index
    }

    /// The projects of the workspace.
    pub fn projects(&self) -> (r: &Vec<Project>)
        ensures
            r@ == self@.projects,
    {
        &self.projects
    }

    /// The path alias keys of the workspace's tsconfig.
    pub fn tsconfig_path_prefixes(&self) -> (r: &Vec<String>)
        ensures
            r@ == self@.tsconfig_path_prefixes,
    {
        &self.tsconfig_path_prefixes
    }

    /// Whether subpaths of workspace packages are resolved through the packages'
    /// exports.
    pub fn resolve_package_exports(&self) -> (r: bool)
        ensures
            r == self@.resolve_package_exports,
    {
        self.resolve_package_exports
    }

    /// The workspace with one file more, in place of an earlier one of its path.
    pub fn with_file(self, file: AnalyzedFile) -> (r: WorkspaceAnalyzer)
        requires
            byte_len(file.file_data.source@) < usize::MAX,
        ensures
            r@ == (WorkspaceView { files: with_file(self@.files, file@), ..self@ }),
    {
        let found: Option<usize> = self.number_of_file(file.relative_path.as_str());
        proof {
            use_type_invariant(&self);
            lemma_file_number(self@.files, file.relative_path@, 0);
        }
        let ghost before = self@;
        let key: String = normalize(file.relative_path.as_str());
        let WorkspaceAnalyzer {
            mut files,
            mut file_numbers,
            projects,
            import_index,
            tsconfig_path_prefixes,
            resolve_package_exports,
        } = self;
        let ghost old_files = files@;
        match found {
            Some(i) => {
                proof {
                    assert(before.files[i as int] == old_files[i as int]@);
                }
                files.set(i, file);
            },
            None => {
                proof {
                    assert forall|k: int| 0 <= k < old_files.len() implies normal(
                        (#[trigger] old_files[k]).relative_path@,
                    ) != key@ by {
                        assert(before.files[k] == old_files[k]@);
                    }
                }
                let number: usize = files.len();
                set_number(&mut file_numbers, key, number);
                files.push(file);
            },
        }
        let r: WorkspaceAnalyzer = WorkspaceAnalyzer {
            files,
            file_numbers,
            projects,
            import_index,
            tsconfig_path_prefixes,
            resolve_package_exports,
        };
        proof {
            assert(r@.files =~= with_file(before.files, file@));
        }
        r
    }

    /// Analyze all files of the workspace: take in what was parsed of them.
    pub fn analyze_workspace(self, files: Vec<AnalyzedFile>) -> (r: WorkspaceAnalyzer)
        requires
            forall|i: int|
                0 <= i < files@.len() ==> byte_len((#[trigger] files@[i]).file_data.source@)
                    < usize::MAX,
        ensures
            r@ == (WorkspaceView { files: with_files(self@.files, file_views(files@)), ..self@ }),
    {
        let ghost before = self@;
        let ghost all = file_views(files@);
        let mut r: WorkspaceAnalyzer = self;
        proof {
            assert(with_files(before.files, all.take(0)) =~= before.files);
        }
        for file in it: files
            invariant
                it.seq() == files@,
                all == file_views(files@),
                forall|i: int|
                    0 <= i < files@.len() ==> byte_len((#[trigger] files@[i]).file_data.source@)
                        < usize::MAX,
                r@ == (WorkspaceView {
                    files: with_files(before.files, all.take(it.index() as int)),
                    ..before
                }),
        {
            proof {
                let done = it.index() as int;
                assert(all[done] == file@);
                assert(all.take(done + 1).drop_last() =~= all.take(done));
                assert(all.take(done + 1).last() == file@);
            }
            r = r.with_file(file);
        }
        proof {
            assert(all.take(all.len() as int) =~= all);
        }
        r
    }

    /// The specifiers that are to be resolved for the import index.
    pub fn import_requests(&self, cwd: &str) -> (r: Vec<ImportRequest>)
        ensures
            request_views(r@) == workspace_requests(self@, cwd@),
    {
        import_requests(&self.files, cwd, &self.projects, &self.tsconfig_path_prefixes)
    }

    /// Build reverse import index: (source_file, symbol) -> importers, from how each
    /// of the requests was resolved.
    pub fn build_import_index(self, cwd: &str, resolutions: &Vec<Resolution>) -> (r: WorkspaceAnalyzer)
        requires
            resolutions@.len() == workspace_requests(self@, cwd@).len(),
        ensures
            r@ == (WorkspaceView {
                import_index: indexed(
                    self@.files,
                    cwd@,
                    workspace_requests(self@, cwd@),
                    resolutions@,
                    resolutions@.len(),
                ),
                ..self@
            }),
    {
        proof {
            use_type_invariant(&self);
        }
        let import_index: ImportIndex = index_imports(
            &self.files,
            cwd,
            &self.projects,
            &self.tsconfig_path_prefixes,
            resolutions,
        );
        WorkspaceAnalyzer {
            files: self.files,
            file_numbers: self.file_numbers,
            projects: self.projects,
            import_index,
            tsconfig_path_prefixes: self.tsconfig_path_prefixes,
            resolve_package_exports: self.resolve_package_exports,
        }
    }

    /// Find all local references to a symbol within a file
    pub fn find_local_references(&self, file_path: &str, symbol_name: &str) -> (r: Result<
        Vec<Reference>,
        DominoError,
    >)
        ensures
            match r {
                Ok(references) => file_number(self@.files, file_path@, 0) matches Some(i)
                    && reference_views(references@) == all_local_references(
                    self@.files[i].file_data,
                    file_path@,
                    symbol_name@,
                ),
                Err(DominoError::FileNotFound(path)) => file_number(self@.files, file_path@, 0)
                    is None && path@ == file_path@,
            },
    {
        match self.number_of_file(file_path) {
            Some(i) => Ok(self.file(i).file_data.references_to(file_path, symbol_name)),
            None => Err(DominoError::FileNotFound(file_path.to_owned())),
        }
    }

    /// Find all references to a namespace member access pattern (e.g., `theme.DatePicker`)
    ///
    /// This is used for namespace imports like `import * as theme from '...'`
    /// to check if a specific symbol from the namespace is actually accessed.
    ///
    /// Unlike `find_local_references` which finds all references to the namespace identifier,
    /// this function specifically looks for member expressions where the namespace is accessed
    /// with the given property name.
    pub fn find_namespace_member_access(
        &self,
        file_path: &str,
        namespace_name: &str,
        property_name: &str,
    ) -> (r: Result<Vec<Reference>, DominoError>)
        ensures
            match r {
                Ok(references) => file_number(self@.files, file_path@, 0) matches Some(i)
                    && reference_views(references@) == member_accesses(
                    self@.files[i].file_data,
                    file_path@,
                    namespace_name@,
                    property_name@,
                    self@.files[i].file_data.nodes.len(),
                ),
                Err(DominoError::FileNotFound(path)) => file_number(self@.files, file_path@, 0)
                    is None && path@ == file_path@,
            },
    {
        match self.number_of_file(file_path) {
            Some(i) => Ok(
                self.file(i).file_data.member_accesses_to(
                    file_path,
                    namespace_name,
                    property_name,
                ),
            ),
            None => Err(DominoError::FileNotFound(file_path.to_owned())),
        }
    }

    /// Check if a symbol is exported from a file
    pub fn is_symbol_exported(&self, file_path: &str, symbol_name: &str) -> (r: bool)
        ensures
            r == match file_number(self@.files, file_path@, 0) {
                Some(i) => is_exported(self@.files[i], symbol_name@),
                None => false,
            },
    {
        match self.number_of_file(file_path) {
            Some(i) => self.file(i).exports_named(symbol_name),
            None => false,
        }
    }

    /// Get all exported symbols that use a given local symbol
    /// This is used to find which exported APIs are affected when an internal symbol changes
    pub fn find_exported_symbols_using(&self, file_path: &str, local_symbol: &str) -> (r: Vec<
        String,
    >)
        ensures
            texts(r@) == match file_number(self@.files, file_path@, 0) {
                Some(i) => exports_using(self@.files[i], local_symbol@),
                None => Seq::empty(),
            },
    {
        match self.number_of_file(file_path) {
            Some(i) => self.file(i).exported_symbols_using(local_symbol),
            None => {
                let none: Vec<String> = Vec::new();
                proof {
                    assert(texts(none@) =~= Seq::<Seq<char>>::empty());
                }
                none
            },
        }
    }

    /// Find symbols at a specific line in a file
    pub fn find_node_at_line(&self, file_path: &str, line: usize, column: usize) -> (r: Result<
        Vec<String>,
        DominoError,
    >)
        ensures
            match r {
                Ok(names) => file_number(self@.files, file_path@, 0) matches Some(i) && texts(
                    names@,
                ) == names_on_line(self@.files[i].file_data, line as nat, column as nat),
                Err(DominoError::FileNotFound(path)) => file_number(self@.files, file_path@, 0)
                    is None && path@ == file_path@,
            },
    {
        match self.number_of_file(file_path) {
            Some(i) => Ok(self.file(i).file_data.names_on(line, column)),
            None => Err(DominoError::FileNotFound(file_path.to_owned())),
        }
    }
}

} // verus!
