//! The order in which imports, exports, references and names are listed.
use super::analyzer::{
    all_local_references, exports_among, exports_using, local_references, member_accesses,
    names_around, reference_at, references_at, AnalyzedView, FileView,
};
use super::extracted::{
    is_export_by, is_import_by, lemma_exports_upto, lemma_specifier_import,
};
use super::listed::exports_user;
use super::module_graph::{
    all_exports, all_imports, binding_exports, declared_imports, exports_upto, is_child,
    named_export, specifier_exports, specifier_import, static_imports,
};
use super::syntax::{NodeKind, NodeView, SymbolView};
use crate::trace::own_exports;
use crate::types::{ExportView, ImportView, ReferenceView};
use vstd::prelude::*;

verus! {

/// Whether a specifier imports something.
pub open spec fn imports_at(nodes: Seq<NodeView>, place: (int, int)) -> bool {
    exists|import: ImportView| #[trigger] is_import_by(nodes, place.0, place.1, import)
}

/// Whether a place comes before another: in an earlier declaration, or earlier in it.
pub open spec fn place_before(a: (int, int), b: (int, int)) -> bool {
    a.0 < b.0 || (a.0 == b.0 && a.1 < b.1)
}

/// Whether places are those of imports, one each, in order.
pub open spec fn are_places(
    nodes: Seq<NodeView>,
    imports: Seq<ImportView>,
    places: Seq<(int, int)>,
) -> bool {
    &&& places.len() == imports.len()
    &&& forall|k: int|
        0 <= k < places.len() ==> is_import_by(
            nodes,
            (#[trigger] places[k]).0,
            places[k].1,
            imports[k],
        )
    &&& forall|k: int, l: int|
        0 <= k < l < places.len() ==> place_before(#[trigger] places[k], #[trigger] places[l])
}

/// The places of the imports of one declaration.
proof fn lemma_declared_places(nodes: Seq<NodeView>, i: int, upto: nat) -> (places: Seq<(int, int)>)
    requires
        0 < i < nodes.len(),
        nodes[i].kind == NodeKind::ImportDeclaration,
        nodes[i].parent == 0,
        upto <= nodes.len(),
    ensures
        are_places(nodes, declared_imports(nodes, i, upto), places),
        forall|k: int|
            0 <= k < places.len() ==> (#[trigger] places[k]).0 == i && 0 <= places[k].1 < upto,
        forall|j: int|
            0 <= j < upto && #[trigger] imports_at(nodes, (i, j)) ==> places.contains((i, j)),
    decreases upto,
{
    if upto == 0 {
        Seq::empty()
    } else {
        let before = lemma_declared_places(nodes, i, (upto - 1) as nat);
        let j = upto - 1;
        match specifier_import(nodes, i, j) {
            Some(made) => {
                lemma_specifier_import(nodes, i, j, made);
                let places = before.push((i, j));
                assert(places[before.len() as int] == (i, j));
                assert forall|m: int|
                    0 <= m < upto && #[trigger] imports_at(nodes, (i, m)) implies places.contains(
                    (i, m),
                ) by {
                    if m < j {
                        let k = choose|k: int| 0 <= k < before.len() && before[k] == (i, m);
                        assert(places[k] == (i, m));
                    }
                }
                places
            },
            None => {
                assert(!imports_at(nodes, (i, j))) by {
                    if imports_at(nodes, (i, j)) {
                        let import = choose|import: ImportView| #[trigger]
                            is_import_by(nodes, i, j, import);
                        lemma_specifier_import(nodes, i, j, import);
                    }
                }
                before
            },
        }
    }
}

/// The places of the static imports.
proof fn lemma_static_places(nodes: Seq<NodeView>, upto: nat) -> (places: Seq<(int, int)>)
    requires
        upto <= nodes.len(),
    ensures
        are_places(nodes, static_imports(nodes, upto), places),
        forall|k: int| 0 <= k < places.len() ==> 0 <= (#[trigger] places[k]).0 < upto,
        forall|i: int, j: int|
            0 <= i < upto && #[trigger] imports_at(nodes, (i, j)) ==> places.contains((i, j)),
    decreases upto,
{
    if upto == 0 {
        Seq::empty()
    } else {
        let before = lemma_static_places(nodes, (upto - 1) as nat);
        let i = upto - 1;
        if nodes[i].kind == NodeKind::ImportDeclaration && is_child(nodes, i, 0) {
            let more = lemma_declared_places(nodes, i, nodes.len());
            let places = before + more;
            let imports = static_imports(nodes, upto);
            let fewer = static_imports(nodes, (upto - 1) as nat);
            assert forall|k: int| 0 <= k < places.len() implies is_import_by(
                nodes,
                (#[trigger] places[k]).0,
                places[k].1,
                imports[k],
            ) by {
                if k < before.len() {
                    assert(places[k] == before[k]);
                    assert(imports[k] == fewer[k]);
                } else {
                    assert(places[k] == more[k - before.len()]);
                }
            }
            assert forall|k: int, l: int| 0 <= k < l < places.len() implies place_before(
                #[trigger] places[k],
                #[trigger] places[l],
            ) by {
                if l < before.len() {
                    assert(places[k] == before[k] && places[l] == before[l]);
                } else if k >= before.len() {
                    assert(places[k] == more[k - before.len()]);
                    assert(places[l] == more[l - before.len()]);
                } else {
                    assert(places[k] == before[k]);
                    assert(places[l] == more[l - before.len()]);
                }
            }
            assert forall|m: int, j: int|
                0 <= m < upto && #[trigger] imports_at(nodes, (m, j)) implies places.contains(
                (m, j),
            ) by {
                if m < i {
                    assert(before.contains((m, j)));
                    let k = choose|k: int| 0 <= k < before.len() && before[k] == (m, j);
                    assert(places[k] == (m, j));
                } else {
                    let import = choose|import: ImportView| #[trigger]
                        is_import_by(nodes, m, j, import);
                    assert(0 <= j < nodes.len());
                    assert(more.contains((i, j)));
                    let k = choose|k: int| 0 <= k < more.len() && more[k] == (i, j);
                    assert(places[before.len() + k] == (m, j));
                }
            }
            places
        } else {
            assert forall|j: int| !#[trigger] imports_at(nodes, (i, j)) by {
                if imports_at(nodes, (i, j)) {
                    let import = choose|import: ImportView| #[trigger]
                        is_import_by(nodes, i, j, import);
                }
            }
            before
        }
    }
}

/// The imports of declarations stand in the order of the declarations and of the
/// specifiers in them, each specifier once, before all others.
pub proof fn law_import_order(nodes: Seq<NodeView>) -> (places: Seq<(int, int)>)
    ensures
        places.len() <= all_imports(nodes).len(),
        are_places(nodes, all_imports(nodes).take(places.len() as int), places),
        forall|i: int, j: int| #[trigger]
            imports_at(nodes, (i, j)) ==> places.contains((i, j)),
{
    let places = lemma_static_places(nodes, nodes.len());
    assert(all_imports(nodes).take(places.len() as int) =~= static_imports(nodes, nodes.len()));
    assert forall|i: int, j: int| #[trigger] imports_at(nodes, (i, j)) implies places.contains(
        (i, j),
    ) by {
        let import = choose|import: ImportView| #[trigger] is_import_by(nodes, i, j, import);
        assert(0 <= i < nodes.len());
    }
    places
}

/// The exports stand in the order of the statements: those of the first statements
/// come before all others.
pub proof fn law_export_order(nodes: Seq<NodeView>, upto: nat, export: ExportView)
    requires
        upto <= nodes.len(),
    ensures
        exports_upto(nodes, upto).is_prefix_of(all_exports(nodes)),
        exports_upto(nodes, upto).contains(export) == exists|i: int, j: int|
            0 <= i < upto && #[trigger] is_export_by(nodes, i, j, export),
{
    lemma_exports_upto(nodes, upto, export);
    lemma_export_prefix(nodes, upto, nodes.len());
}

/// The exports of fewer statements start those of more.
proof fn lemma_export_prefix(nodes: Seq<NodeView>, fewer: nat, more: nat)
    requires
        fewer <= more,
    ensures
        exports_upto(nodes, fewer).is_prefix_of(exports_upto(nodes, more)),
    decreases more,
{
    if fewer < more {
        lemma_export_prefix(nodes, fewer, (more - 1) as nat);
        let a = exports_upto(nodes, fewer);
        let b = exports_upto(nodes, (more - 1) as nat);
        let c = exports_upto(nodes, more);
        assert(a =~= c.subrange(0, a.len() as int)) by {
            assert forall|k: int| 0 <= k < a.len() implies a[k] == c[k] by {
                assert(a[k] == b[k]);
            }
        }
    } else {
        let a = exports_upto(nodes, fewer);
        assert(a =~= a.subrange(0, a.len() as int));
    }
}

/// The exports of a list stand in the order of its specifiers, one for each.
pub proof fn law_listed_export_order(nodes: Seq<NodeView>, i: int, upto: nat)
    requires
        upto <= nodes.len(),
        0 <= i < nodes.len(),
        nodes[i].kind == NodeKind::ExportNamedDeclaration,
    ensures
        specifier_exports(nodes, i, upto).map_values(|e: ExportView| e.re_export_from)
            == nodes.take(upto as int).filter(
            |n: NodeView| n.parent == i && n.kind == NodeKind::ExportSpecifier,
        ).map_values(|n: NodeView| nodes[i].module),
        specifier_exports(nodes, i, upto).map_values(|e: ExportView| e.exported_name)
            == nodes.take(upto as int).filter(
            |n: NodeView| n.parent == i && n.kind == NodeKind::ExportSpecifier,
        ).map_values(
            |n: NodeView|
                if n.name is Some {
                    n.name->0
                } else {
                    Seq::empty()
                },
        ),
        specifier_exports(nodes, i, upto).map_values(|e: ExportView| e.local_name)
            == nodes.take(upto as int).filter(
            |n: NodeView| n.parent == i && n.kind == NodeKind::ExportSpecifier,
        ).map_values(
            |n: NodeView|
                Some(
                    if n.local is Some {
                        n.local->0
                    } else {
                        Seq::empty()
                    },
                ),
        ),
    decreases upto,
{
    reveal(Seq::filter);
    let listed = |n: NodeView| n.parent == i && n.kind == NodeKind::ExportSpecifier;
    let all = nodes.take(upto as int);
    let from = |e: ExportView| e.re_export_from;
    let exported = |e: ExportView| e.exported_name;
    let local = |e: ExportView| e.local_name;
    let module = |n: NodeView| nodes[i].module;
    let name = |n: NodeView|
        if n.name is Some {
            n.name->0
        } else {
            Seq::empty()
        };
    let inner = |n: NodeView|
        Some(
            if n.local is Some {
                n.local->0
            } else {
                Seq::empty()
            },
        );
    let made = specifier_exports(nodes, i, upto);
    if upto > 0 {
        law_listed_export_order(nodes, i, (upto - 1) as nat);
        assert(all.drop_last() =~= nodes.take(upto - 1));
        assert(all.last() == nodes[upto - 1]);
        let before = specifier_exports(nodes, i, (upto - 1) as nat);
        let kept = nodes.take(upto - 1).filter(listed);
        if listed(nodes[upto - 1]) {
            assert(made == before.push(made.last()));
            assert(all.filter(listed) == kept.push(nodes[upto - 1]));
            assert(made.map_values(from) =~= before.map_values(from).push(
                made.last().re_export_from,
            ));
            assert(made.map_values(exported) =~= before.map_values(exported).push(
                made.last().exported_name,
            ));
            assert(made.map_values(local) =~= before.map_values(local).push(
                made.last().local_name,
            ));
            assert(kept.push(nodes[upto - 1]).map_values(module) =~= kept.map_values(module).push(
                nodes[i].module,
            ));
            assert(kept.push(nodes[upto - 1]).map_values(name) =~= kept.map_values(name).push(
                name(nodes[upto - 1]),
            ));
            assert(kept.push(nodes[upto - 1]).map_values(inner) =~= kept.map_values(inner).push(
                inner(nodes[upto - 1]),
            ));
        }
    }
    assert(made.map_values(from) =~= all.filter(listed).map_values(module));
    assert(made.map_values(exported) =~= all.filter(listed).map_values(name));
    assert(made.map_values(local) =~= all.filter(listed).map_values(inner));
}

/// The exports of variables stand in the order of their bindings, one for each that
/// has a name.
pub proof fn law_bound_export_order(nodes: Seq<NodeView>, v: int, upto: nat)
    requires
        upto <= nodes.len(),
        0 <= v < nodes.len(),
        nodes[v].kind == NodeKind::VariableDeclaration,
    ensures
        binding_exports(nodes, v, upto).map_values(|e: ExportView| e.exported_name)
            == nodes.take(upto as int).filter(
            |n: NodeView|
                n.parent == v && n.kind == NodeKind::VariableDeclarator && n.name is Some,
        ).map_values(|n: NodeView| n.name->0),
    decreases upto,
{
    reveal(Seq::filter);
    let bound = |n: NodeView|
        n.parent == v && n.kind == NodeKind::VariableDeclarator && n.name is Some;
    let all = nodes.take(upto as int);
    let exported = |e: ExportView| e.exported_name;
    let name = |n: NodeView| n.name->0;
    let made = binding_exports(nodes, v, upto);
    if upto > 0 {
        law_bound_export_order(nodes, v, (upto - 1) as nat);
        assert(all.drop_last() =~= nodes.take(upto - 1));
        assert(all.last() == nodes[upto - 1]);
        let before = binding_exports(nodes, v, (upto - 1) as nat);
        let kept = nodes.take(upto - 1).filter(bound);
        let last = nodes[upto - 1];
        assert(all.filter(bound) == if bound(last) {
            kept.push(last)
        } else {
            kept
        });
        assert(upto - 1 == v ==> last.kind != NodeKind::VariableDeclarator);
        if bound(last) {
            assert(made == before.push(named_export(last.name->0)));
            assert(made.map_values(exported) =~= before.map_values(exported).push(last.name->0));
            assert(kept.push(last).map_values(name) =~= kept.map_values(name).push(last.name->0));
        } else {
            assert(made == before);
        }
    }
    assert(made.map_values(exported) =~= all.filter(bound).map_values(name));
}

/// The exports that use a symbol stand in the order of the exports, one for each that
/// uses it.
pub proof fn law_exports_using_in_order(file: AnalyzedView, symbol: Seq<char>)
    ensures
        exports_using(file, symbol) == Seq::new(file.exports.len(), |e: int| e).filter(
            |e: int| exports_user(file, e, symbol, file.exports[e].exported_name),
        ).map_values(|e: int| file.exports[e].exported_name),
{
    let references = all_local_references(file.file_data, file.relative_path, symbol);
    let names = super::analyzer::containers(file.file_data, references, references.len());
    lemma_exports_among_in_order(file, symbol, names, file.exports.len());
}

/// The exports among declarations, in order.
proof fn lemma_exports_among_in_order(
    file: AnalyzedView,
    symbol: Seq<char>,
    names: Set<Seq<char>>,
    upto: nat,
)
    requires
        upto <= file.exports.len(),
        ({
            let references = all_local_references(file.file_data, file.relative_path, symbol);
            names == super::analyzer::containers(file.file_data, references, references.len())
        }),
    ensures
        exports_among(file.exports, symbol, names, upto) == Seq::new(upto, |e: int| e).filter(
            |e: int| exports_user(file, e, symbol, file.exports[e].exported_name),
        ).map_values(|e: int| file.exports[e].exported_name),
    decreases upto,
{
    reveal(Seq::filter);
    let uses = |e: int| exports_user(file, e, symbol, file.exports[e].exported_name);
    let name = |e: int| file.exports[e].exported_name;
    let all = Seq::new(upto, |e: int| e);
    if upto == 0 {
        assert(all.filter(uses).map_values(name) =~= Seq::<Seq<char>>::empty());
    } else {
        let fewer = (upto - 1) as nat;
        lemma_exports_among_in_order(file, symbol, names, fewer);
        assert(all.drop_last() =~= Seq::new(fewer, |e: int| e));
        assert(all.last() == upto - 1);
        let references = all_local_references(file.file_data, file.relative_path, symbol);
        let export = file.exports[upto - 1];
        let local = super::analyzer::local_export_name(export);
        super::listed::lemma_containers(file.file_data, references, references.len(), local);
        assert(uses(upto - 1) == (export.re_export_from is None && local != symbol
            && names.contains(local))) by {
            if names.contains(local) {
                let k = choose|k: int|
                    0 <= k < references.len() && names_around(
                        file.file_data,
                        #[trigger] references[k],
                    ).contains(local);
                assert(references.contains(references[k]));
            }
            if uses(upto - 1) {
                let r = choose|r: ReferenceView| #[trigger]
                    references.contains(r) && names_around(file.file_data, r).contains(local);
                let k = choose|k: int| 0 <= k < references.len() && references[k] == r;
                assert(names_around(file.file_data, references[k]).contains(local));
            }
        }
        assert(exports_among(file.exports, symbol, names, upto) =~= all.filter(uses).map_values(
            name,
        ));
    }
}

/// The accesses of a member stand in the order of the nodes, one for each.
pub proof fn law_member_access_order(
    file: FileView,
    path: Seq<char>,
    namespace: Seq<char>,
    property: Seq<char>,
    upto: nat,
)
    requires
        upto <= file.nodes.len(),
    ensures
        member_accesses(file, path, namespace, property, upto) == file.nodes.take(
            upto as int,
        ).filter(
            |n: NodeView|
                (n.kind == NodeKind::StaticMember || n.kind == NodeKind::QualifiedName) && n.name
                    == Some(property) && n.local == Some(namespace),
        ).map_values(|n: NodeView| reference_at(file, path, n.start)),
    decreases upto,
{
    reveal(Seq::filter);
    let is_access = |n: NodeView|
        (n.kind == NodeKind::StaticMember || n.kind == NodeKind::QualifiedName) && n.name == Some(
            property,
        ) && n.local == Some(namespace);
    let place = |n: NodeView| reference_at(file, path, n.start);
    let all = file.nodes.take(upto as int);
    if upto > 0 {
        law_member_access_order(file, path, namespace, property, (upto - 1) as nat);
        assert(all.drop_last() =~= file.nodes.take(upto - 1));
        assert(all.last() == file.nodes[upto - 1]);
    }
    assert(member_accesses(file, path, namespace, property, upto) =~= all.filter(
        is_access,
    ).map_values(place));
}

/// The references to a name stand in the order of the symbols that have it and, for
/// each, in the order of its references.
pub proof fn law_local_reference_order(file: FileView, path: Seq<char>, name: Seq<char>)
    ensures
        all_local_references(file, path, name) == file.symbols.filter(
            |s: SymbolView| s.name == name,
        ).map_values(
            |s: SymbolView| s.references.map_values(|o: usize| reference_at(file, path, o)),
        ).flatten(),
{
    lemma_local_reference_order(file, path, name, file.symbols.len());
    assert(file.symbols.take(file.symbols.len() as int) =~= file.symbols);
    file.symbols.filter(|s: SymbolView| s.name == name).map_values(
        |s: SymbolView| s.references.map_values(|o: usize| reference_at(file, path, o)),
    ).lemma_flatten_and_flatten_alt_are_equivalent();
}

/// The references to the first symbols of a name, in order.
proof fn lemma_local_reference_order(file: FileView, path: Seq<char>, name: Seq<char>, upto: nat)
    requires
        upto <= file.symbols.len(),
    ensures
        local_references(file, path, name, upto) == file.symbols.take(upto as int).filter(
            |s: SymbolView| s.name == name,
        ).map_values(
            |s: SymbolView| s.references.map_values(|o: usize| reference_at(file, path, o)),
        ).flatten_alt(),
    decreases upto,
{
    reveal(Seq::filter);
    let named = |s: SymbolView| s.name == name;
    let places = |s: SymbolView| s.references.map_values(|o: usize| reference_at(file, path, o));
    let all = file.symbols.take(upto as int);
    if upto == 0 {
        assert(all.filter(named).map_values(places) =~= Seq::<Seq<ReferenceView>>::empty());
    } else {
        lemma_local_reference_order(file, path, name, (upto - 1) as nat);
        assert(all.drop_last() =~= file.symbols.take(upto - 1));
        assert(all.last() == file.symbols[upto - 1]);
        let kept = file.symbols.take(upto - 1).filter(named);
        let symbol = file.symbols[upto - 1];
        if symbol.name == name {
            assert(all.filter(named) == kept.push(symbol));
            let lists = kept.push(symbol).map_values(places);
            assert(lists.drop_last() =~= kept.map_values(places));
            assert(lists.last() =~= references_at(file, path, symbol.references));
        }
    }
}

/// What a file exports from itself stands in the order of its exports.
pub proof fn law_own_export_order(exports: Seq<ExportView>, upto: nat)
    requires
        upto <= exports.len(),
    ensures
        own_exports(exports, upto) == exports.take(upto as int).filter(
            |e: ExportView| e.re_export_from is None,
        ).map_values(
            |e: ExportView|
                if e.local_name is Some {
                    e.local_name->0
                } else {
                    e.exported_name
                },
        ),
    decreases upto,
{
    reveal(Seq::filter);
    let own = |e: ExportView| e.re_export_from is None;
    let name = |e: ExportView|
        if e.local_name is Some {
            e.local_name->0
        } else {
            e.exported_name
        };
    let all = exports.take(upto as int);
    if upto > 0 {
        law_own_export_order(exports, (upto - 1) as nat);
        assert(all.drop_last() =~= exports.take(upto - 1));
        assert(all.last() == exports[upto - 1]);
    }
    assert(own_exports(exports, upto) =~= all.filter(own).map_values(name));
}

} // verus!
