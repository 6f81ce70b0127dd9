//! The imports and exports that a syntax tree declares.
use crate::semantic::syntax::{is_declaration, node_views, NodeKind, NodeView, SyntaxNode};
use crate::types::{copy_text, text_in, Export, ExportView, Import, ImportView};
use vstd::prelude::*;

verus! {

/// Whether node `j` is a child of node `i`.
pub open spec fn is_child(nodes: Seq<NodeView>, j: int, i: int) -> bool {
    j != i && nodes[j].parent == i
}

/// The text, or an empty one where there is none.
pub open spec fn or_empty(text: Option<Seq<char>>) -> Seq<char> {
    match text {
        Some(t) => t,
        None => Seq::empty(),
    }
}

/// The text, or an empty one where there is none.
fn text_or_empty(text: &Option<String>) -> (r: String)
    ensures
        r@ == or_empty(text_in(*text)),
{
    match text {
        Some(t) => t.clone(),
        None => String::new(),
    }
}

/// What a list of imports stands for.
pub open spec fn import_views(imports: Seq<Import>) -> Seq<ImportView> {
    imports.map_values(|import: Import| import@)
}

/// What a list of exports stands for.
pub open spec fn export_views(exports: Seq<Export>) -> Seq<ExportView> {
    exports.map_values(|export: Export| export@)
}

/// What specifier `j` of import declaration `i` brings in.
pub open spec fn specifier_import(nodes: Seq<NodeView>, i: int, j: int) -> Option<ImportView> {
    let from_module = or_empty(nodes[i].module);
    let local_name = or_empty(nodes[j].local);
    if !is_child(nodes, j, i) {
        None
    } else {
        match nodes[j].kind {
            NodeKind::ImportSpecifier => Some(
                ImportView {
                    imported_name: or_empty(nodes[j].name),
                    local_name,
                    from_module,
                    resolved_file: None,
                    is_type_only: nodes[i].is_type || nodes[j].is_type,
                    is_dynamic: false,
                },
            ),
            NodeKind::ImportDefaultSpecifier => Some(
                ImportView {
                    imported_name: "default"@,
                    local_name,
                    from_module,
                    resolved_file: None,
                    is_type_only: nodes[i].is_type,
                    is_dynamic: false,
                },
            ),
            NodeKind::ImportNamespaceSpecifier => Some(
                ImportView {
                    imported_name: "*"@,
                    local_name,
                    from_module,
                    resolved_file: None,
                    is_type_only: nodes[i].is_type,
                    is_dynamic: false,
                },
            ),
            _ => None,
        }
    }
}

/// What import declaration `i` brings in through the first `upto` nodes.
pub open spec fn declared_imports(nodes: Seq<NodeView>, i: int, upto: nat) -> Seq<ImportView>
    decreases upto,
{
    if upto == 0 {
        Seq::empty()
    } else {
        let before = declared_imports(nodes, i, (upto - 1) as nat);
        match specifier_import(nodes, i, upto - 1) {
            Some(import) => before.push(import),
            None => before,
        }
    }
}

/// What the import declarations among the first `upto` nodes bring in; they are
/// statements of the file itself.
pub open spec fn static_imports(nodes: Seq<NodeView>, upto: nat) -> Seq<ImportView>
    decreases upto,
{
    if upto == 0 {
        Seq::empty()
    } else {
        let before = static_imports(nodes, (upto - 1) as nat);
        let i = upto - 1;
        if nodes[i].kind == NodeKind::ImportDeclaration && is_child(nodes, i, 0) {
            before + declared_imports(nodes, i, nodes.len())
        } else {
            before
        }
    }
}

/// A number in decimal digits.
pub open spec fn decimal(n: nat) -> Seq<char>
    decreases n,
{
    let digit = ('0' as int + n % 10) as char;
    if n < 10 {
        seq![digit]
    } else {
        decimal(n / 10).push(digit)
    }
}

/// What the `import()` expressions among the first `upto` nodes bring in: the
/// whole module, under a name of its own, where a string literal names it.
pub open spec fn dynamic_imports(nodes: Seq<NodeView>, upto: nat) -> Seq<ImportView>
    decreases upto,
{
    if upto == 0 {
        Seq::empty()
    } else {
        let before = dynamic_imports(nodes, (upto - 1) as nat);
        let node = nodes[upto - 1];
        match node.module {
            Some(from_module) => if node.kind == NodeKind::ImportExpression {
                before.push(
                    ImportView {
                        imported_name: "*"@,
                        local_name: "__dynamic_import_"@ + decimal(before.len()),
                        from_module,
                        resolved_file: None,
                        is_type_only: false,
                        is_dynamic: true,
                    },
                )
            } else {
                before
            },
            None => before,
        }
    }
}

/// Everything that a file imports.
pub open spec fn all_imports(nodes: Seq<NodeView>) -> Seq<ImportView> {
    static_imports(nodes, nodes.len()) + dynamic_imports(nodes, nodes.len())
}

/// The declaration inside export `i`, from node `from` on.
pub open spec fn exported_declaration(nodes: Seq<NodeView>, i: int, from: int) -> Option<int>
    decreases nodes.len() - from,
{
    if from >= nodes.len() {
        None
    } else if is_child(nodes, from, i) && is_declaration(nodes[from].kind) {
        Some(from)
    } else {
        exported_declaration(nodes, i, from + 1)
    }
}

/// The exports of the specifiers of export `i` among the first `upto` nodes.
pub open spec fn specifier_exports(nodes: Seq<NodeView>, i: int, upto: nat) -> Seq<ExportView>
    decreases upto,
{
    if upto == 0 {
        Seq::empty()
    } else {
        let before = specifier_exports(nodes, i, (upto - 1) as nat);
        let j = upto - 1;
        if is_child(nodes, j, i) && nodes[j].kind == NodeKind::ExportSpecifier {
            before.push(
                ExportView {
                    exported_name: or_empty(nodes[j].name),
                    local_name: Some(or_empty(nodes[j].local)),
                    re_export_from: nodes[i].module,
                },
            )
        } else {
            before
        }
    }
}

/// An export of a declared name.
pub open spec fn named_export(name: Seq<char>) -> ExportView {
    ExportView { exported_name: name, local_name: None, re_export_from: None }
}

/// The exports of the identifiers that variable declaration `i` binds, among
/// the first `upto` nodes.
pub open spec fn binding_exports(nodes: Seq<NodeView>, i: int, upto: nat) -> Seq<ExportView>
    decreases upto,
{
    if upto == 0 {
        Seq::empty()
    } else {
        let before = binding_exports(nodes, i, (upto - 1) as nat);
        let j = upto - 1;
        match nodes[j].name {
            Some(name) => if is_child(nodes, j, i) && nodes[j].kind
                == NodeKind::VariableDeclarator {
                before.push(named_export(name))
            } else {
                before
            },
            None => before,
        }
    }
}

/// The exports of an exported declaration: the names of variables, a function
/// or a class. Types are not exported by name.
pub open spec fn declaration_exports(nodes: Seq<NodeView>, i: int) -> Seq<ExportView> {
    match nodes[i].kind {
        NodeKind::VariableDeclaration => binding_exports(nodes, i, nodes.len()),
        NodeKind::Function | NodeKind::Class => match nodes[i].name {
            Some(name) => seq![named_export(name)],
            None => Seq::empty(),
        },
        _ => Seq::empty(),
    }
}

/// The exports of named export `i`: those of its specifiers, then those of its
/// declaration.
pub open spec fn named_exports(nodes: Seq<NodeView>, i: int) -> Seq<ExportView> {
    specifier_exports(nodes, i, nodes.len()) + match exported_declaration(nodes, i, 0) {
        Some(j) => declaration_exports(nodes, j),
        None => Seq::empty(),
    }
}

/// The exports of statement `i`.
pub open spec fn statement_exports(nodes: Seq<NodeView>, i: int) -> Seq<ExportView> {
    match nodes[i].kind {
        NodeKind::ExportNamedDeclaration => named_exports(nodes, i),
        NodeKind::ExportDefaultDeclaration => seq![named_export("default"@)],
        NodeKind::ExportAllDeclaration => seq![
            ExportView {
                exported_name: "*"@,
                local_name: None,
                re_export_from: Some(or_empty(nodes[i].module)),
            },
        ],
        _ => Seq::empty(),
    }
}

/// The exports of the file's statements among the first `upto` nodes.
pub open spec fn exports_upto(nodes: Seq<NodeView>, upto: nat) -> Seq<ExportView>
    decreases upto,
{
    if upto == 0 {
        Seq::empty()
    } else {
        let before = exports_upto(nodes, (upto - 1) as nat);
        if is_child(nodes, upto - 1, 0) {
            before + statement_exports(nodes, upto - 1)
        } else {
            before
        }
    }
}

/// Everything that a file exports.
pub open spec fn all_exports(nodes: Seq<NodeView>) -> Seq<ExportView> {
    exports_upto(nodes, nodes.len())
}

/// A number in decimal digits.
pub fn decimal_text(n: usize) -> (r: String)
    ensures
        r@ == decimal(n as nat),
    decreases n,
{
    let mut text: String = if n < 10 {
        String::new()
    } else {
        decimal_text(n / 10)
    };
    let digit: char = (48u8 + (n % 10) as u8) as char;
    text.push(digit);
    proof {
        if n < 10 {
            assert(text@ =~= decimal(n as nat));
        }
    }
    text
}

/// Adds what specifier `j` of import declaration `i` brings in.
fn process_specifier(nodes: &Vec<SyntaxNode>, i: usize, j: usize, imports: &mut Vec<Import>)
    requires
        i < nodes@.len(),
        j < nodes@.len(),
    ensures
        import_views(final(imports)@) == match specifier_import(
            node_views(nodes@),
            i as int,
            j as int,
        ) {
            Some(import) => import_views(old(imports)@).push(import),
            None => import_views(old(imports)@),
        },
{
    let ghost views = node_views(nodes@);
    let ghost before = imports@;
    let declaration: &SyntaxNode = &nodes[i];
    let node: &SyntaxNode = &nodes[j];
    proof {
        assert(views[i as int] == declaration@);
        assert(views[j as int] == node@);
    }
    if j == i || node.parent != i {
        return;
    }
    let imported: (String, bool) = match node.kind {
        NodeKind::ImportSpecifier => (
            text_or_empty(&node.name),
            declaration.is_type || node.is_type,
        ),
        NodeKind::ImportDefaultSpecifier => ("default".to_owned(), declaration.is_type),
        NodeKind::ImportNamespaceSpecifier => ("*".to_owned(), declaration.is_type),
        _ => {
            return;
        },
    };
    let import: Import = Import {
        imported_name: imported.0,
        local_name: text_or_empty(&node.local),
        from_module: text_or_empty(&declaration.module),
        resolved_file: None,
        is_type_only: imported.1,
        is_dynamic: false,
    };
    imports.push(import);
    proof {
        assert(import_views(imports@) =~= import_views(before).push(import@));
        assert(specifier_import(views, i as int, j as int) == Some(import@));
    }
}

/// Adds what import declaration `i` brings in.
fn process_import(nodes: &Vec<SyntaxNode>, i: usize, imports: &mut Vec<Import>)
    requires
        i < nodes@.len(),
    ensures
        import_views(final(imports)@) == import_views(old(imports)@) + declared_imports(
            node_views(nodes@),
            i as int,
            nodes@.len(),
        ),
{
    let ghost views = node_views(nodes@);
    let ghost before = import_views(imports@);
    let mut j: usize = 0;
    proof {
        assert(before + declared_imports(views, i as int, 0) =~= before);
    }
    while j < nodes.len()
        invariant
            i < nodes@.len(),
            views == node_views(nodes@),
            j <= nodes@.len(),
            import_views(imports@) == before + declared_imports(views, i as int, j as nat),
        decreases nodes@.len() - j,
    {
        process_specifier(nodes, i, j, imports);
        proof {
            assert(import_views(imports@) =~= before + declared_imports(
                views,
                i as int,
                (j + 1) as nat,
            ));
        }
        j = j + 1;
    }
}

/// Extract imports from a syntax tree: those of the import declarations, then
/// those of the `import()` expressions.
pub fn extract_imports(nodes: &Vec<SyntaxNode>) -> (r: Vec<Import>)
    ensures
        import_views(r@) == all_imports(node_views(nodes@)),
{
    let ghost views = node_views(nodes@);
    let mut imports: Vec<Import> = Vec::new();
    let mut i: usize = 0;
    proof {
        assert(import_views(imports@) =~= Seq::<ImportView>::empty());
    }
    while i < nodes.len()
        invariant
            views == node_views(nodes@),
            i <= nodes@.len(),
            import_views(imports@) == static_imports(views, i as nat),
        decreases nodes@.len() - i,
    {
        proof {
            assert(views[i as int] == nodes@[i as int]@);
        }
        if nodes[i].kind == NodeKind::ImportDeclaration && i != 0 && nodes[i].parent == 0 {
            process_import(nodes, i, &mut imports);
        }
        i = i + 1;
    }
    let ghost fixed = import_views(imports@);
    let mut count: usize = 0;
    let mut k: usize = 0;
    proof {
        assert(fixed + dynamic_imports(views, 0) =~= fixed);
    }
    while k < nodes.len()
        invariant
            views == node_views(nodes@),
            k <= nodes@.len(),
            count <= k,
            count == dynamic_imports(views, k as nat).len(),
            import_views(imports@) == fixed + dynamic_imports(views, k as nat),
        decreases nodes@.len() - k,
    {
        let node: &SyntaxNode = &nodes[k];
        proof {
            assert(views[k as int] == node@);
        }
        if node.kind == NodeKind::ImportExpression {
            if let Some(from_module) = &node.module {
                let import: Import = create_namespace_import(from_module.as_str(), count);
                let ghost before = imports@;
                imports.push(import);
                proof {
                    assert(import_views(imports@) =~= import_views(before).push(import@));
                    assert(import_views(imports@) =~= fixed + dynamic_imports(
                        views,
                        (k + 1) as nat,
                    ));
                }
                count = count + 1;
            }
        }
        k = k + 1;
    }
    imports
}

/// The import that stands for an `import()` expression: the whole module, under
/// a numbered name.
fn create_namespace_import(from_module: &str, number: usize) -> (r: Import)
    ensures
        r@ == (ImportView {
            imported_name: "*"@,
            local_name: "__dynamic_import_"@ + decimal(number as nat),
            from_module: from_module@,
            resolved_file: None,
            is_type_only: false,
            is_dynamic: true,
        }),
{
    let mut local_name: String = "__dynamic_import_".to_owned();
    let digits: String = decimal_text(number);
    local_name.append(digits.as_str());
    Import {
        imported_name: "*".to_owned(),
        local_name,
        from_module: from_module.to_owned(),
        resolved_file: None,
        is_type_only: false,
        is_dynamic: true,
    }
}

/// The declaration inside an export.
pub fn find_exported_declaration(nodes: &Vec<SyntaxNode>, i: usize) -> (r: Option<usize>)
    requires
        i < nodes@.len(),
    ensures
        match r {
            Some(j) => j < nodes@.len() && exported_declaration(node_views(nodes@), i as int, 0)
                == Some(j as int),
            None => exported_declaration(node_views(nodes@), i as int, 0) is None,
        },
{
    let ghost views = node_views(nodes@);
    let mut j: usize = 0;
    while j < nodes.len()
        invariant
            views == node_views(nodes@),
            i < nodes@.len(),
            j <= nodes@.len(),
            exported_declaration(views, i as int, 0) == exported_declaration(
                views,
                i as int,
                j as int,
            ),
        decreases nodes@.len() - j,
    {
        proof {
            assert(views[j as int] == nodes@[j as int]@);
        }
        let declares: bool = match nodes[j].kind {
            NodeKind::VariableDeclaration | NodeKind::Function | NodeKind::Class
            | NodeKind::Interface | NodeKind::TypeAlias | NodeKind::Enum | NodeKind::Namespace
            | NodeKind::Global | NodeKind::ImportEquals => true,
            _ => false,
        };
        if declares && j != i && nodes[j].parent == i {
            return Some(j);
        }
        j = j + 1;
    }
    None
}

/// Adds an export of a declared name.
fn push_named(exports: &mut Vec<Export>, name: String)
    ensures
        export_views(final(exports)@) == export_views(old(exports)@).push(named_export(name@)),
{
    let ghost before = exports@;
    let export: Export = Export { exported_name: name, local_name: None, re_export_from: None };
    exports.push(export);
    proof {
        assert(export_views(exports@) =~= export_views(before).push(export@));
    }
}

/// Adds the exports of the specifiers of export `i`.
fn process_specifiers(nodes: &Vec<SyntaxNode>, i: usize, exports: &mut Vec<Export>)
    requires
        i < nodes@.len(),
    ensures
        export_views(final(exports)@) == export_views(old(exports)@) + specifier_exports(
            node_views(nodes@),
            i as int,
            nodes@.len(),
        ),
{
    let ghost views = node_views(nodes@);
    let ghost before = export_views(exports@);
    let mut j: usize = 0;
    proof {
        assert(before + specifier_exports(views, i as int, 0) =~= before);
        assert(views[i as int] == nodes@[i as int]@);
    }
    while j < nodes.len()
        invariant
            views == node_views(nodes@),
            i < nodes@.len(),
            views[i as int] == nodes@[i as int]@,
            j <= nodes@.len(),
            export_views(exports@) == before + specifier_exports(views, i as int, j as nat),
        decreases nodes@.len() - j,
    {
        let node: &SyntaxNode = &nodes[j];
        proof {
            assert(views[j as int] == node@);
        }
        if node.kind == NodeKind::ExportSpecifier && j != i && node.parent == i {
            let export: Export = Export {
                exported_name: text_or_empty(&node.name),
                local_name: Some(text_or_empty(&node.local)),
                re_export_from: copy_text(&nodes[i].module),
            };
            let ghost current = exports@;
            exports.push(export);
            proof {
                assert(export_views(exports@) =~= export_views(current).push(export@));
                assert(export_views(exports@) =~= before + specifier_exports(
                    views,
                    i as int,
                    (j + 1) as nat,
                ));
            }
        }
        j = j + 1;
    }
}

/// Adds the exports of the identifiers that variable declaration `i` binds.
fn process_bindings(nodes: &Vec<SyntaxNode>, i: usize, exports: &mut Vec<Export>)
    requires
        i < nodes@.len(),
    ensures
        export_views(final(exports)@) == export_views(old(exports)@) + binding_exports(
            node_views(nodes@),
            i as int,
            nodes@.len(),
        ),
{
    let ghost views = node_views(nodes@);
    let ghost before = export_views(exports@);
    let mut j: usize = 0;
    proof {
        assert(before + binding_exports(views, i as int, 0) =~= before);
    }
    while j < nodes.len()
        invariant
            views == node_views(nodes@),
            i < nodes@.len(),
            j <= nodes@.len(),
            export_views(exports@) == before + binding_exports(views, i as int, j as nat),
        decreases nodes@.len() - j,
    {
        let node: &SyntaxNode = &nodes[j];
        proof {
            assert(views[j as int] == node@);
        }
        if node.kind == NodeKind::VariableDeclarator && j != i && node.parent == i {
            if let Some(name) = &node.name {
                push_named(exports, name.clone());
                proof {
                    assert(export_views(exports@) =~= before + binding_exports(
                        views,
                        i as int,
                        (j + 1) as nat,
                    ));
                }
            }
        }
        j = j + 1;
    }
}

/// Adds the exports of named export `i`.
fn process_named_export(nodes: &Vec<SyntaxNode>, i: usize, exports: &mut Vec<Export>)
    requires
        i < nodes@.len(),
    ensures
        export_views(final(exports)@) == export_views(old(exports)@) + named_exports(
            node_views(nodes@),
            i as int,
        ),
{
    let ghost views = node_views(nodes@);
    let ghost before = export_views(exports@);
    process_specifiers(nodes, i, exports);
    if let Some(j) = find_exported_declaration(nodes, i) {
        proof {
            assert(views[j as int] == nodes@[j as int]@);
        }
        match nodes[j].kind {
            NodeKind::VariableDeclaration => {
                process_bindings(nodes, j, exports);
            },
            NodeKind::Function | NodeKind::Class => {
                if let Some(name) = &nodes[j].name {
                    push_named(exports, name.clone());
                }
            },
            _ => {},
        }
    }
    proof {
        assert(export_views(exports@) =~= before + named_exports(views, i as int));
    }
}

/// Extract exports from a syntax tree
pub fn extract_exports(nodes: &Vec<SyntaxNode>) -> (r: Vec<Export>)
    ensures
        export_views(r@) == all_exports(node_views(nodes@)),
{
    let ghost views = node_views(nodes@);
    let mut exports: Vec<Export> = Vec::new();
    let mut i: usize = 0;
    proof {
        assert(export_views(exports@) =~= Seq::<ExportView>::empty());
    }
    while i < nodes.len()
        invariant
            views == node_views(nodes@),
            i <= nodes@.len(),
            export_views(exports@) == exports_upto(views, i as nat),
        decreases nodes@.len() - i,
    {
        let node: &SyntaxNode = &nodes[i];
        let ghost before = exports@;
        proof {
            assert(views[i as int] == node@);
        }
        if i != 0 && node.parent == 0 {
            match node.kind {
                NodeKind::ExportNamedDeclaration => {
                    process_named_export(nodes, i, &mut exports);
                },
                NodeKind::ExportDefaultDeclaration => {
                    push_named(&mut exports, "default".to_owned());
                },
                NodeKind::ExportAllDeclaration => {
                    let export: Export = Export {
                        exported_name: "*".to_owned(),
                        local_name: None,
                        re_export_from: Some(text_or_empty(&node.module)),
                    };
                    exports.push(export);
                    proof {
                        assert(export_views(exports@) =~= export_views(before).push(export@));
                    }
                },
                _ => {},
            }
            proof {
                assert(export_views(exports@) =~= export_views(before) + statement_exports(
                    views,
                    i as int,
                ));
            }
        }
        i = i + 1;
    }
    exports
}

} // verus!
