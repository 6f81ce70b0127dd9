//! What a file imports and exports, told from its nodes.
use crate::lists::{lemma_joined, lemma_pushed};
use crate::semantic::analyzer::analyzed;
use crate::semantic::module_graph::{
    all_exports, all_imports, binding_exports, decimal, declaration_exports, declared_imports,
    dynamic_imports, exported_declaration, exports_upto, is_child, named_export, named_exports,
    specifier_exports, specifier_import, statement_exports, static_imports,
};
use crate::semantic::positions::{is_declaration_of, lemma_declaration, lemma_no_declaration};
use crate::semantic::syntax::{NodeKind, NodeView, SymbolView};
use crate::types::{ExportView, ImportView};
use vstd::prelude::*;

verus! {

/// Whether a text is an optional one, or empty where there is none.
pub open spec fn is_text_or_empty(text: Seq<char>, optional: Option<Seq<char>>) -> bool {
    (optional matches Some(t) ==> text == t) && (optional is None ==> text.len() == 0)
}

/// Whether an import is what specifier `j` of import declaration `i` says.
pub open spec fn is_import_by(nodes: Seq<NodeView>, i: int, j: int, import: ImportView) -> bool {
    &&& 0 < i < nodes.len()
    &&& nodes[i].kind == NodeKind::ImportDeclaration
    &&& nodes[i].parent == 0
    &&& 0 <= j < nodes.len()
    &&& j != i
    &&& nodes[j].parent == i
    &&& is_text_or_empty(import.local_name, nodes[j].local)
    &&& is_text_or_empty(import.from_module, nodes[i].module)
    &&& import.resolved_file is None
    &&& !import.is_dynamic
    &&& {
        ||| nodes[j].kind == NodeKind::ImportSpecifier && is_text_or_empty(
            import.imported_name,
            nodes[j].name,
        ) && import.is_type_only == (nodes[i].is_type || nodes[j].is_type)
        ||| nodes[j].kind == NodeKind::ImportDefaultSpecifier && import.imported_name == "default"@
            && import.is_type_only == nodes[i].is_type
        ||| nodes[j].kind == NodeKind::ImportNamespaceSpecifier && import.imported_name == "*"@
            && import.is_type_only == nodes[i].is_type
    }
}

/// A specifier says of an import what it says.
pub proof fn lemma_specifier_import(nodes: Seq<NodeView>, i: int, j: int, import: ImportView)
    requires
        0 < i < nodes.len(),
        nodes[i].kind == NodeKind::ImportDeclaration,
        nodes[i].parent == 0,
        0 <= j < nodes.len(),
    ensures
        (specifier_import(nodes, i, j) == Some(import)) == is_import_by(nodes, i, j, import),
{
    reveal_strlit("default");
    reveal_strlit("*");
    let empty = Seq::<char>::empty();
    if is_import_by(nodes, i, j, import) {
        let made = specifier_import(nodes, i, j)->0;
        assert(import.local_name =~= made.local_name);
        assert(import.from_module =~= made.from_module);
        assert(import.imported_name =~= made.imported_name);
        assert(import =~= made);
    }
}

/// The imports of a declaration are those that its specifiers say.
proof fn lemma_declared_imports(nodes: Seq<NodeView>, i: int, upto: nat, import: ImportView)
    requires
        0 < i < nodes.len(),
        nodes[i].kind == NodeKind::ImportDeclaration,
        nodes[i].parent == 0,
        upto <= nodes.len(),
    ensures
        declared_imports(nodes, i, upto).contains(import) == exists|j: int|
            0 <= j < upto && #[trigger] is_import_by(nodes, i, j, import),
    decreases upto,
{
    if upto > 0 {
        lemma_declared_imports(nodes, i, (upto - 1) as nat, import);
        lemma_specifier_import(nodes, i, upto - 1, import);
        let before = declared_imports(nodes, i, (upto - 1) as nat);
        if let Some(made) = specifier_import(nodes, i, upto - 1) {
            lemma_pushed(before, made, import);
        }
    }
}

/// The static imports are those that the specifiers of the declarations say.
proof fn lemma_static_imports(nodes: Seq<NodeView>, upto: nat, import: ImportView)
    requires
        upto <= nodes.len(),
    ensures
        static_imports(nodes, upto).contains(import) == exists|i: int, j: int|
            0 <= i < upto && #[trigger] is_import_by(nodes, i, j, import),
    decreases upto,
{
    if upto > 0 {
        lemma_static_imports(nodes, (upto - 1) as nat, import);
        let i = upto - 1;
        let before = static_imports(nodes, (upto - 1) as nat);
        if nodes[i].kind == NodeKind::ImportDeclaration && is_child(nodes, i, 0) {
            lemma_declared_imports(nodes, i, nodes.len(), import);
            lemma_joined(before, declared_imports(nodes, i, nodes.len()), import);
        }
    }
}

/// The dynamic imports are marked and numbered, and each is one of an import
/// expression with a literal module.
proof fn lemma_dynamic_imports(nodes: Seq<NodeView>, upto: nat)
    requires
        upto <= nodes.len(),
    ensures
        forall|k: int|
            0 <= k < dynamic_imports(nodes, upto).len() ==> {
                let import = #[trigger] dynamic_imports(nodes, upto)[k];
                &&& import.is_dynamic
                &&& !import.is_type_only
                &&& import.resolved_file is None
                &&& import.imported_name == "*"@
                &&& import.local_name == "__dynamic_import_"@ + decimal(k as nat)
            },
        dynamic_imports(nodes, upto).map_values(|import: ImportView| import.from_module)
            == nodes.take(upto as int).filter(
            |node: NodeView| node.kind == NodeKind::ImportExpression && node.module is Some,
        ).map_values(|node: NodeView| node.module->0),
    decreases upto,
{
    let counts = |node: NodeView|
        node.kind == NodeKind::ImportExpression && node.module is Some;
    let module = |node: NodeView| node.module->0;
    let from = |import: ImportView| import.from_module;
    reveal(Seq::filter);
    if upto > 0 {
        lemma_dynamic_imports(nodes, (upto - 1) as nat);
        let before = dynamic_imports(nodes, (upto - 1) as nat);
        let shorter = nodes.take(upto - 1);
        let longer = nodes.take(upto as int);
        let node = nodes[upto - 1];
        assert(longer.drop_last() =~= shorter);
        assert(longer.last() == node);
        assert(shorter.filter(counts).push(node).map_values(module) =~= shorter.filter(
            counts,
        ).map_values(module).push(module(node)));
        if counts(node) {
            let all = dynamic_imports(nodes, upto);
            assert(all.map_values(from) =~= before.map_values(from).push(module(node)));
        }
    } else {
        assert(nodes.take(0).filter(counts).map_values(module) =~= Seq::<Seq<char>>::empty());
        assert(dynamic_imports(nodes, 0).map_values(from) =~= Seq::<Seq<char>>::empty());
    }
}

/// What a file imports by declarations: for every specifier of every import
/// declaration at the top of the file the name that it imports, its local name and
/// the module, and nothing else.
pub proof fn law_static_imports(nodes: Seq<NodeView>, import: ImportView)
    requires
        !import.is_dynamic,
    ensures
        all_imports(nodes).contains(import) == exists|i: int, j: int| #[trigger]
            is_import_by(nodes, i, j, import),
{
    lemma_static_imports(nodes, nodes.len(), import);
    lemma_dynamic_imports(nodes, nodes.len());
    lemma_joined(
        static_imports(nodes, nodes.len()),
        dynamic_imports(nodes, nodes.len()),
        import,
    );
}

/// What a file imports by expressions stands behind its other imports: one import
/// of everything for each `import("module")` with a literal module, in their order,
/// and each under a name of its own.
pub proof fn law_dynamic_imports(nodes: Seq<NodeView>)
    ensures
        ({
            let found = nodes.filter(
                |node: NodeView| node.kind == NodeKind::ImportExpression && node.module is Some,
            );
            let n = all_imports(nodes).len() - found.len();
            &&& n >= 0
            &&& forall|k: int|
                0 <= k < n ==> !(#[trigger] all_imports(nodes)[k]).is_dynamic
            &&& forall|k: int|
                n <= k < all_imports(nodes).len() ==> (#[trigger] all_imports(nodes)[k]).is_dynamic
                    && all_imports(nodes)[k].imported_name == "*"@
                    && !all_imports(nodes)[k].is_type_only && all_imports(nodes)[k].from_module
                    == found[k - n].module->0
            &&& forall|k: int, l: int|
                n <= k < l < all_imports(nodes).len() ==> (#[trigger] all_imports(
                    nodes,
                )[k]).local_name != (#[trigger] all_imports(nodes)[l]).local_name
        }),
{
    let counts = |node: NodeView|
        node.kind == NodeKind::ImportExpression && node.module is Some;
    let found = nodes.filter(counts);
    let a = static_imports(nodes, nodes.len());
    let b = dynamic_imports(nodes, nodes.len());
    let all = all_imports(nodes);
    lemma_dynamic_imports(nodes, nodes.len());
    assert(nodes.take(nodes.len() as int) =~= nodes);
    let modules = b.map_values(|import: ImportView| import.from_module);
    let wanted = found.map_values(|node: NodeView| node.module->0);
    assert(modules == wanted);
    assert(modules.len() == b.len() && wanted.len() == found.len());
    let n = a.len();
    assert forall|k: int| 0 <= k < n implies !(#[trigger] all[k]).is_dynamic by {
        lemma_static_imports(nodes, nodes.len(), a[k]);
        assert(a.contains(a[k]));
    }
    assert forall|k: int| n <= k < all.len() implies (#[trigger] all[k]).is_dynamic
        && all[k].imported_name == "*"@ && !all[k].is_type_only && all[k].from_module == found[k
        - n].module->0 by {
        assert(all[k] == b[k - n]);
        assert(modules[k - n] == wanted[k - n]);
    }
    assert forall|k: int, l: int| n <= k < l < all.len() implies (#[trigger] all[k]).local_name != (
    #[trigger] all[l]).local_name by {
        assert(all[k] == b[k - n] && all[l] == b[l - n]);
        let x = decimal((k - n) as nat);
        let y = decimal((l - n) as nat);
        law_decimal((k - n) as nat);
        law_decimal((l - n) as nat);
        let head = "__dynamic_import_"@;
        if head + x == head + y {
            assert(x =~= (head + x).skip(head.len() as int));
            assert(y =~= (head + y).skip(head.len() as int));
        }
    }
}

/// The number that digits make.
pub open spec fn number_of(digits: Seq<char>) -> int
    decreases digits.len(),
{
    if digits.len() == 0 {
        0
    } else {
        number_of(digits.drop_last()) * 10 + (digits.last() as int - '0' as int)
    }
}

/// A number is written in digits that make it, without zeros ahead.
pub proof fn law_decimal(n: nat)
    ensures
        number_of(decimal(n)) == n,
        decimal(n).len() >= 1,
        forall|i: int| 0 <= i < decimal(n).len() ==> '0' <= #[trigger] decimal(n)[i] <= '9',
        decimal(n).len() > 1 ==> decimal(n)[0] != '0',
        n > 0 ==> decimal(n)[0] != '0',
    decreases n,
{
    let digit = ('0' as int + n % 10) as char;
    assert(digit as int == '0' as int + n % 10);
    if n < 10 {
        assert(seq![digit].drop_last() =~= Seq::<char>::empty());
        reveal_with_fuel(number_of, 2);
    } else {
        law_decimal(n / 10);
        assert(decimal(n).drop_last() =~= decimal(n / 10));
    }
}

/// Whether an export is one that node `i` at the top of a file says.
pub open spec fn is_export_by(nodes: Seq<NodeView>, i: int, j: int, export: ExportView) -> bool {
    &&& 0 < i < nodes.len()
    &&& nodes[i].parent == 0
    &&& {
        // `export { local as exported }`, with or without a module
        ||| nodes[i].kind == NodeKind::ExportNamedDeclaration && 0 <= j < nodes.len() && j != i
            && nodes[j].parent == i && nodes[j].kind == NodeKind::ExportSpecifier
            && is_text_or_empty(export.exported_name, nodes[j].name) && export.local_name is Some
            && is_text_or_empty(export.local_name->0, nodes[j].local) && export.re_export_from
            == nodes[i].module
        // `export function x`, `export class x`
        ||| nodes[i].kind == NodeKind::ExportNamedDeclaration && is_first_declaration(nodes, j, i)
            && (nodes[j].kind == NodeKind::Function || nodes[j].kind == NodeKind::Class)
            && nodes[j].name == Some(export.exported_name) && export.local_name is None
            && export.re_export_from is None
        // `export const x, y`
        ||| nodes[i].kind == NodeKind::ExportNamedDeclaration && 0 <= j < nodes.len()
            && nodes[j].kind == NodeKind::VariableDeclarator && nodes[j].parent != j
            && is_first_declaration(nodes, nodes[j].parent as int, i)
            && nodes[nodes[j].parent as int].kind == NodeKind::VariableDeclaration
            && nodes[j].name == Some(export.exported_name) && export.local_name is None
            && export.re_export_from is None
        // `export default ...`
        ||| nodes[i].kind == NodeKind::ExportDefaultDeclaration && export.exported_name
            == "default"@ && export.local_name is None && export.re_export_from is None
        // `export * from "module"`
        ||| nodes[i].kind == NodeKind::ExportAllDeclaration && export.exported_name == "*"@
            && export.local_name is None && export.re_export_from is Some && is_text_or_empty(
            export.re_export_from->0,
            nodes[i].module,
        )
    }
}

/// Whether node `j` is the first declaration of export `e`.
pub open spec fn is_first_declaration(nodes: Seq<NodeView>, j: int, e: int) -> bool {
    is_declaration_of(nodes, j, e) && forall|k: int|
        0 <= k < j ==> !#[trigger] is_declaration_of(nodes, k, e)
}

/// The declaration that is found in an export is its first.
proof fn lemma_found_declaration(nodes: Seq<NodeView>, e: int, j: int)
    ensures
        (exported_declaration(nodes, e, 0) == Some(j)) == is_first_declaration(nodes, j, e),
{
    if is_first_declaration(nodes, j, e) {
        lemma_declaration(nodes, j, e, 0);
    }
    if exported_declaration(nodes, e, 0) == Some(j) {
        if forall|k: int| 0 <= k < nodes.len() ==> !#[trigger] is_declaration_of(nodes, k, e) {
            lemma_no_declaration(nodes, e, 0);
        } else {
            let k = choose|k: int|
                0 <= k < nodes.len() && #[trigger] is_declaration_of(nodes, k, e);
            let first = lemma_least_declaration(nodes, e, k);
            lemma_declaration(nodes, first, e, 0);
        }
    }
}

/// Where an export holds declarations, one of them is its first.
proof fn lemma_least_declaration(nodes: Seq<NodeView>, e: int, k: int) -> (first: int)
    requires
        is_declaration_of(nodes, k, e),
    ensures
        is_first_declaration(nodes, first, e),
    decreases k,
{
    if forall|l: int| 0 <= l < k ==> !#[trigger] is_declaration_of(nodes, l, e) {
        k
    } else {
        let l = choose|l: int| 0 <= l < k && #[trigger] is_declaration_of(nodes, l, e);
        lemma_least_declaration(nodes, e, l)
    }
}

/// The exports of the specifiers are those that they say.
proof fn lemma_specifier_exports(nodes: Seq<NodeView>, i: int, upto: nat, export: ExportView)
    requires
        upto <= nodes.len(),
    ensures
        specifier_exports(nodes, i, upto).contains(export) == exists|j: int|
            0 <= j < upto && j != i && (#[trigger] nodes[j]).parent == i && nodes[j].kind
                == NodeKind::ExportSpecifier && is_text_or_empty(
                export.exported_name,
                nodes[j].name,
            ) && export.local_name is Some && is_text_or_empty(
                export.local_name->0,
                nodes[j].local,
            ) && export.re_export_from == nodes[i].module,
    decreases upto,
{
    if upto > 0 {
        lemma_specifier_exports(nodes, i, (upto - 1) as nat, export);
        let j = upto - 1;
        let before = specifier_exports(nodes, i, (upto - 1) as nat);
        if is_child(nodes, j, i) && nodes[j].kind == NodeKind::ExportSpecifier {
            let made = specifier_exports(nodes, i, upto).last();
            lemma_pushed(before, made, export);
            if is_text_or_empty(export.exported_name, nodes[j].name) && export.local_name is Some
                && is_text_or_empty(export.local_name->0, nodes[j].local) && export.re_export_from
                == nodes[i].module {
                assert(export.exported_name =~= made.exported_name);
                assert(export.local_name->0 =~= made.local_name->0);
                assert(export == made);
            }
        }
    }
}

/// The exports of variables are the plain names that they bind.
proof fn lemma_binding_exports(nodes: Seq<NodeView>, v: int, upto: nat, export: ExportView)
    requires
        upto <= nodes.len(),
    ensures
        binding_exports(nodes, v, upto).contains(export) == exists|j: int|
            0 <= j < upto && j != v && (#[trigger] nodes[j]).parent == v && nodes[j].kind
                == NodeKind::VariableDeclarator && nodes[j].name == Some(export.exported_name)
                && export.local_name is None && export.re_export_from is None,
    decreases upto,
{
    if upto > 0 {
        lemma_binding_exports(nodes, v, (upto - 1) as nat, export);
        let j = upto - 1;
        if let Some(name) = nodes[j].name {
            lemma_pushed(
                binding_exports(nodes, v, (upto - 1) as nat),
                named_export(name),
                export,
            );
        }
    }
}

/// The exports of a statement are those that it says.
proof fn lemma_statement_exports(nodes: Seq<NodeView>, i: int, export: ExportView)
    requires
        0 < i < nodes.len(),
        nodes[i].parent == 0,
    ensures
        statement_exports(nodes, i).contains(export) == exists|j: int| #[trigger]
            is_export_by(nodes, i, j, export),
{
    let all = statement_exports(nodes, i);
    match nodes[i].kind {
        NodeKind::ExportNamedDeclaration => {
            lemma_named_exports(nodes, i, export);
        },
        NodeKind::ExportDefaultDeclaration => {
            assert(all[0] == named_export("default"@));
            if all.contains(export) {
                assert(is_export_by(nodes, i, 0, export));
            }
            if exists|j: int| #[trigger] is_export_by(nodes, i, j, export) {
                assert(export == named_export("default"@));
            }
        },
        NodeKind::ExportAllDeclaration => {
            if all.contains(export) {
                assert(export == all[0]);
                assert(is_export_by(nodes, i, 0, export));
            }
            if exists|j: int| #[trigger] is_export_by(nodes, i, j, export) {
                assert(export.re_export_from->0 =~= all[0].re_export_from->0);
                assert(export == all[0]);
            }
        },
        _ => {
            assert(forall|j: int| !#[trigger] is_export_by(nodes, i, j, export));
        },
    }
}

/// The exports of a named export are those that it says.
proof fn lemma_named_exports(nodes: Seq<NodeView>, i: int, export: ExportView)
    requires
        0 < i < nodes.len(),
        nodes[i].parent == 0,
        nodes[i].kind == NodeKind::ExportNamedDeclaration,
    ensures
        named_exports(nodes, i).contains(export) == exists|j: int| #[trigger]
            is_export_by(nodes, i, j, export),
{
    let listed = specifier_exports(nodes, i, nodes.len());
    let declared = match exported_declaration(nodes, i, 0) {
        Some(d) => declaration_exports(nodes, d),
        None => Seq::empty(),
    };
    lemma_joined(listed, declared, export);
    lemma_specifier_exports(nodes, i, nodes.len(), export);
    if listed.contains(export) {
        let j = choose|j: int|
            0 <= j < nodes.len() && j != i && (#[trigger] nodes[j]).parent == i && nodes[j].kind
                == NodeKind::ExportSpecifier && is_text_or_empty(
                export.exported_name,
                nodes[j].name,
            ) && export.local_name is Some && is_text_or_empty(
                export.local_name->0,
                nodes[j].local,
            ) && export.re_export_from == nodes[i].module;
        assert(is_export_by(nodes, i, j, export));
    }
    if let Some(d) = exported_declaration(nodes, i, 0) {
        lemma_found_declaration(nodes, i, d);
        lemma_binding_exports(nodes, d, nodes.len(), export);
        if declared.contains(export) {
            if nodes[d].kind == NodeKind::VariableDeclaration {
                let j = choose|j: int|
                    0 <= j < nodes.len() && j != d && (#[trigger] nodes[j]).parent == d
                        && nodes[j].kind == NodeKind::VariableDeclarator && nodes[j].name == Some(
                        export.exported_name,
                    ) && export.local_name is None && export.re_export_from is None;
                assert(is_export_by(nodes, i, j, export));
            } else {
                assert(export == declared[0]);
                assert(is_export_by(nodes, i, d, export));
            }
        }
    }
    if exists|j: int| #[trigger] is_export_by(nodes, i, j, export) {
        let j = choose|j: int| #[trigger] is_export_by(nodes, i, j, export);
        if nodes[j].kind == NodeKind::ExportSpecifier && export.local_name is Some {
            assert(nodes[j].parent == i);
        } else if nodes[j].kind == NodeKind::VariableDeclarator {
            let v = nodes[j].parent as int;
            lemma_found_declaration(nodes, i, v);
            assert(nodes[j].parent == v);
        } else {
            lemma_found_declaration(nodes, i, j);
            assert(declared =~= seq![named_export(export.exported_name)]);
            assert(declared[0] == export);
        }
    }
}

/// The exports of the first statements are those that they say.
pub proof fn lemma_exports_upto(nodes: Seq<NodeView>, upto: nat, export: ExportView)
    requires
        upto <= nodes.len(),
    ensures
        exports_upto(nodes, upto).contains(export) == exists|i: int, j: int|
            0 <= i < upto && #[trigger] is_export_by(nodes, i, j, export),
    decreases upto,
{
    if upto > 0 {
        lemma_exports_upto(nodes, (upto - 1) as nat, export);
        let i = upto - 1;
        if is_child(nodes, i, 0) {
            lemma_statement_exports(nodes, i, export);
            lemma_joined(
                exports_upto(nodes, (upto - 1) as nat),
                statement_exports(nodes, i),
                export,
            );
        }
    }
}

/// What a file exports: every name of every list of exports, with its local name and
/// module; what exported functions, classes and variables declare; its default; and
/// whole modules. Nothing else is exported.
pub proof fn law_exports(nodes: Seq<NodeView>, export: ExportView)
    ensures
        all_exports(nodes).contains(export) == exists|i: int, j: int| #[trigger]
            is_export_by(nodes, i, j, export),
{
    lemma_exports_upto(nodes, nodes.len(), export);
}

/// What is known of a file is its text, its path, its nodes and symbols, and what the
/// nodes import and export.
pub proof fn law_analyzed_file(
    source: Seq<char>,
    nodes: Seq<NodeView>,
    symbols: Seq<SymbolView>,
    relative_path: Seq<char>,
)
    ensures
        ({
            let file = analyzed(source, nodes, symbols, relative_path);
            &&& file.relative_path == relative_path
            &&& file.file_data.source == source
            &&& file.file_data.nodes == nodes
            &&& file.file_data.symbols == symbols
            &&& file.imports == all_imports(nodes)
            &&& file.exports == all_exports(nodes)
        }),
{
}

} // verus!
