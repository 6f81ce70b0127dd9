//! What a position in a file is named by, told from the nodes around it.
use crate::semantic::module_graph::exported_declaration;
use crate::semantic::naming::{
    first_binding, innermost, names_at, names_up, naming_around, naming_inside,
    specifiers_between, Naming,
};
use crate::semantic::syntax::{NodeKind, NodeView};
use vstd::prelude::*;

verus! {

/// Whether node `a` encloses node `i`.
pub open spec fn encloses(nodes: Seq<NodeView>, a: int, i: int) -> bool
    decreases i,
{
    let parent = nodes[i].parent as int;
    0 <= parent < i && (parent == a || encloses(nodes, a, parent))
}

/// Whether node `a` is node `i` or encloses it.
pub open spec fn at_or_around(nodes: Seq<NodeView>, a: int, i: int) -> bool {
    a == i || encloses(nodes, a, i)
}

/// Whether a node exports what it holds.
pub open spec fn is_export(node: NodeView) -> bool {
    node.kind == NodeKind::ExportNamedDeclaration || node.kind
        == NodeKind::ExportDefaultDeclaration
}

/// Whether a node is a declaration that carries a name.
pub open spec fn carries_name(node: NodeView) -> bool {
    &&& node.name is Some
    &&& node.kind == NodeKind::Function || node.kind == NodeKind::Class || node.kind
        == NodeKind::VariableDeclarator || node.kind == NodeKind::Interface || node.kind
        == NodeKind::TypeAlias || node.kind == NodeKind::Enum
}

/// Whether node `e` is the export next to node `i`, at it or around it.
pub open spec fn is_next_export(nodes: Seq<NodeView>, e: int, i: int) -> bool {
    &&& at_or_around(nodes, e, i)
    &&& is_export(nodes[e])
    &&& forall|a: int|
        at_or_around(nodes, a, i) && #[trigger] encloses(nodes, e, a) ==> !is_export(nodes[a])
}

/// Whether no node at node `i` or around it exports.
pub open spec fn is_unexported(nodes: Seq<NodeView>, i: int) -> bool {
    forall|a: int| #[trigger] at_or_around(nodes, a, i) ==> !is_export(nodes[a])
}

/// Whether node `j` is the declaration that export `e` holds.
pub open spec fn is_declaration_of(nodes: Seq<NodeView>, j: int, e: int) -> bool {
    &&& 0 <= j < nodes.len()
    &&& j != e
    &&& nodes[j].parent == e
    &&& nodes[j].kind == NodeKind::VariableDeclaration || nodes[j].kind == NodeKind::Function
        || nodes[j].kind == NodeKind::Class || nodes[j].kind == NodeKind::Interface
        || nodes[j].kind == NodeKind::TypeAlias || nodes[j].kind == NodeKind::Enum
        || nodes[j].kind == NodeKind::Namespace || nodes[j].kind == NodeKind::Global
        || nodes[j].kind == NodeKind::ImportEquals
}

/// Whether node `d` is the first declarator of variable declaration `v` that binds
/// a plain name.
pub open spec fn is_first_binding(nodes: Seq<NodeView>, d: int, v: int) -> bool {
    &&& 0 <= d < nodes.len()
    &&& d != v
    &&& nodes[d].parent == v
    &&& nodes[d].kind == NodeKind::VariableDeclarator
    &&& nodes[d].name is Some
    &&& forall|k: int|
        0 <= k < d && k != v && (#[trigger] nodes[k]).parent == v && nodes[k].kind
            == NodeKind::VariableDeclarator ==> nodes[k].name is None
}

/// Whether no declarator of a variable declaration binds a plain name.
pub open spec fn binds_nothing(nodes: Seq<NodeView>, v: int) -> bool {
    forall|k: int|
        0 <= k < nodes.len() && k != v && (#[trigger] nodes[k]).parent == v && nodes[k].kind
            == NodeKind::VariableDeclarator ==> nodes[k].name is None
}

/// What encloses a node stands before it.
proof fn lemma_encloses_before(nodes: Seq<NodeView>, a: int, i: int)
    requires
        encloses(nodes, a, i),
    ensures
        0 <= a < i,
    decreases i,
{
    let parent = nodes[i].parent as int;
    if parent != a {
        lemma_encloses_before(nodes, a, parent);
    }
}

/// The first binding of a variable declaration is found.
proof fn lemma_first_binding(nodes: Seq<NodeView>, d: int, v: int, from: int)
    requires
        is_first_binding(nodes, d, v),
        0 <= from <= d,
    ensures
        first_binding(nodes, v, from) == nodes[d].name,
    decreases d - from,
{
    if from < d {
        lemma_first_binding(nodes, d, v, from + 1);
    }
}

/// Where no plain name is bound, none is found.
proof fn lemma_no_binding(nodes: Seq<NodeView>, v: int, from: int)
    requires
        binds_nothing(nodes, v),
        0 <= from,
    ensures
        first_binding(nodes, v, from) is None,
    decreases nodes.len() - from,
{
    if from < nodes.len() {
        lemma_no_binding(nodes, v, from + 1);
    }
}

/// The declaration of an export is found.
pub proof fn lemma_declaration(nodes: Seq<NodeView>, j: int, e: int, from: int)
    requires
        is_declaration_of(nodes, j, e),
        forall|k: int| 0 <= k < j ==> !#[trigger] is_declaration_of(nodes, k, e),
        0 <= from <= j,
    ensures
        exported_declaration(nodes, e, from) == Some(j),
    decreases j - from,
{
    assert(from < j ==> !is_declaration_of(nodes, from, e));
    if from < j {
        lemma_declaration(nodes, j, e, from + 1);
    }
}

/// Where an export holds no declaration, none is found.
pub proof fn lemma_no_declaration(nodes: Seq<NodeView>, e: int, from: int)
    requires
        forall|k: int| 0 <= k < nodes.len() ==> !#[trigger] is_declaration_of(nodes, k, e),
        0 <= from,
    ensures
        exported_declaration(nodes, e, from) is None,
    decreases nodes.len() - from,
{
    if from < nodes.len() {
        assert(!is_declaration_of(nodes, from, e));
        lemma_no_declaration(nodes, e, from + 1);
    }
}

/// On the way up to the next export nothing is final.
proof fn lemma_up_to_export(
    nodes: Seq<NodeView>,
    e: int,
    i: int,
    low: nat,
    high: nat,
    exported: bool,
    name: Option<Seq<char>>,
) -> (met: Option<Seq<char>>)
    requires
        encloses(nodes, e, i),
        is_export(nodes[e]),
        forall|a: int|
            encloses(nodes, a, i) && #[trigger] encloses(nodes, e, a) ==> !is_export(nodes[a]),
    ensures
        names_up(nodes, i, low, high, exported, name) == match naming_around(
            nodes,
            e,
            low,
            high,
            exported,
            met,
        ) {
            Naming::Final(names) => names,
            Naming::Open(exported, name) => names_up(nodes, e, low, high, exported, name),
        },
        (name is None && (forall|a: int|
            encloses(nodes, a, i) && #[trigger] encloses(nodes, e, a) ==> !carries_name(nodes[a])
                && nodes[a].kind != NodeKind::VariableDeclaration)) ==> met is None,
    decreases i,
{
    let parent = nodes[i].parent as int;
    if parent == e {
        name
    } else {
        assert(encloses(nodes, parent, i));
        assert(encloses(nodes, e, parent));
        assert(!is_export(nodes[parent]));
        assert forall|a: int|
            encloses(nodes, a, parent) && #[trigger] encloses(nodes, e, a) implies encloses(
            nodes,
            a,
            i,
        ) by {}
        match naming_around(nodes, parent, low, high, exported, name) {
            Naming::Open(exported, further) => {
                let met = lemma_up_to_export(nodes, e, parent, low, high, exported, further);
                if name is None && (forall|a: int|
                    encloses(nodes, a, i) && #[trigger] encloses(nodes, e, a) ==> !carries_name(
                        nodes[a],
                    ) && nodes[a].kind != NodeKind::VariableDeclaration) {
                    assert(!carries_name(nodes[parent]));
                    assert(further is None);
                }
                met
            },
            Naming::Final(names) => name,
        }
    }
}

/// A name at an export is final, where the export holds a declaration of that name.
proof fn lemma_names_at_export(
    nodes: Seq<NodeView>,
    offset: nat,
    low: nat,
    high: nat,
    e: int,
    names: Seq<Seq<char>>,
)
    requires
        innermost(nodes, offset, nodes.len()) matches Some(i) && is_next_export(nodes, e, i),
        forall|exported: bool, name: Option<Seq<char>>| #[trigger]
            naming_around(nodes, e, low, high, exported, name) == Naming::Final(names),
        naming_inside(nodes, e, low, high) == Naming::Final(names),
    ensures
        names_at(nodes, offset, low, high) == names,
{
    let i = innermost(nodes, offset, nodes.len())->0;
    if i != e {
        assert(encloses(nodes, e, i));
        assert(at_or_around(nodes, i, i));
        assert(!is_export(nodes[i]));
        if let Naming::Open(exported, name) = naming_inside(nodes, i, low, high) {
            assert forall|a: int|
                encloses(nodes, a, i) && #[trigger] encloses(nodes, e, a) implies !is_export(
                nodes[a],
            ) by {
                assert(at_or_around(nodes, a, i));
            }
            let met = lemma_up_to_export(nodes, e, i, low, high, exported, name);
            assert(naming_around(nodes, e, low, high, exported, met) == Naming::Final(names));
        }
    }
}

/// A position inside an exported function, class, interface, type alias or enum is
/// named by it.
pub proof fn law_inside_exported_declaration(
    nodes: Seq<NodeView>,
    offset: nat,
    low: nat,
    high: nat,
    e: int,
    j: int,
)
    requires
        innermost(nodes, offset, nodes.len()) matches Some(i) && is_next_export(nodes, e, i),
        nodes[e].kind == NodeKind::ExportNamedDeclaration,
        is_declaration_of(nodes, j, e),
        forall|k: int| 0 <= k < j ==> !#[trigger] is_declaration_of(nodes, k, e),
        nodes[j].kind == NodeKind::Function || nodes[j].kind == NodeKind::Class || nodes[j].kind
            == NodeKind::Interface || nodes[j].kind == NodeKind::TypeAlias || nodes[j].kind
            == NodeKind::Enum,
        nodes[j].name is Some,
    ensures
        names_at(nodes, offset, low, high) == seq![nodes[j].name->0],
{
    lemma_declaration(nodes, j, e, 0);
    lemma_names_at_export(nodes, offset, low, high, e, seq![nodes[j].name->0]);
}

/// A position inside exported variables is named by the first plain name that they
/// bind.
pub proof fn law_inside_exported_variables(
    nodes: Seq<NodeView>,
    offset: nat,
    low: nat,
    high: nat,
    e: int,
    j: int,
    d: int,
)
    requires
        innermost(nodes, offset, nodes.len()) matches Some(i) && is_next_export(nodes, e, i),
        nodes[e].kind == NodeKind::ExportNamedDeclaration,
        is_declaration_of(nodes, j, e),
        forall|k: int| 0 <= k < j ==> !#[trigger] is_declaration_of(nodes, k, e),
        nodes[j].kind == NodeKind::VariableDeclaration,
        is_first_binding(nodes, d, j),
    ensures
        names_at(nodes, offset, low, high) == seq![nodes[d].name->0],
{
    lemma_declaration(nodes, j, e, 0);
    lemma_first_binding(nodes, d, j, 0);
    lemma_names_at_export(nodes, offset, low, high, e, seq![nodes[d].name->0]);
}

/// A position inside a default export is named `default`.
pub proof fn law_inside_default_export(
    nodes: Seq<NodeView>,
    offset: nat,
    low: nat,
    high: nat,
    e: int,
)
    requires
        innermost(nodes, offset, nodes.len()) matches Some(i) && is_next_export(nodes, e, i),
        nodes[e].kind == NodeKind::ExportDefaultDeclaration,
    ensures
        names_at(nodes, offset, low, high) == seq!["default"@],
{
    lemma_names_at_export(nodes, offset, low, high, e, seq!["default"@]);
}

/// The specifiers of an export that meet a range of bytes are listed in order.
pub proof fn law_specifiers_on_line(
    nodes: Seq<NodeView>,
    e: int,
    low: nat,
    high: nat,
    upto: nat,
)
    requires
        upto <= nodes.len(),
        0 <= e < nodes.len(),
        nodes[e].kind == NodeKind::ExportNamedDeclaration,
    ensures
        specifiers_between(nodes, e, low, high, upto) == nodes.take(upto as int).filter(
            |node: NodeView|
                node.parent == e && node.kind == NodeKind::ExportSpecifier && node.name is Some
                    && node.start <= high && low <= node.end,
        ).map_values(|node: NodeView| node.name->0),
    decreases upto,
{
    let counts = |node: NodeView|
        node.parent == e && node.kind == NodeKind::ExportSpecifier && node.name is Some
            && node.start <= high && low <= node.end;
    let name = |node: NodeView| node.name->0;
    reveal(Seq::filter);
    if upto > 0 {
        law_specifiers_on_line(nodes, e, low, high, (upto - 1) as nat);
        let longer = nodes.take(upto as int);
        assert(longer.drop_last() =~= nodes.take(upto - 1));
        assert(longer.last() == nodes[upto - 1]);
        let before = nodes.take(upto - 1).filter(counts);
        assert(before.push(nodes[upto - 1]).map_values(name) =~= before.map_values(name).push(
            name(nodes[upto - 1]),
        ));
        assert(specifiers_between(nodes, e, low, high, upto) =~= longer.filter(counts).map_values(
            name,
        ));
    } else {
        assert(nodes.take(0).filter(counts).map_values(name) =~= Seq::<Seq<char>>::empty());
    }
}

/// Whether nothing between an export and a node inside it is named.
pub open spec fn is_nameless_between(nodes: Seq<NodeView>, e: int, i: int) -> bool {
    forall|a: int|
        at_or_around(nodes, a, i) && #[trigger] encloses(nodes, e, a) ==> !carries_name(nodes[a])
            && nodes[a].kind != NodeKind::VariableDeclaration
}

/// A position in a list of exports, such as `export { a, b as c }`, is named by the
/// specifiers that meet its line, where there are any.
pub proof fn law_inside_export_list(
    nodes: Seq<NodeView>,
    offset: nat,
    low: nat,
    high: nat,
    e: int,
)
    requires
        innermost(nodes, offset, nodes.len()) matches Some(i) && is_next_export(nodes, e, i)
            && is_nameless_between(nodes, e, i),
        nodes[e].kind == NodeKind::ExportNamedDeclaration,
        forall|k: int| 0 <= k < nodes.len() ==> !#[trigger] is_declaration_of(nodes, k, e),
        specifiers_between(nodes, e, low, high, nodes.len()).len() > 0,
    ensures
        names_at(nodes, offset, low, high) == specifiers_between(
            nodes,
            e,
            low,
            high,
            nodes.len(),
        ),
{
    let i = innermost(nodes, offset, nodes.len())->0;
    lemma_no_declaration(nodes, e, 0);
    if i != e {
        assert(encloses(nodes, e, i));
        assert(at_or_around(nodes, i, i));
        assert(!is_export(nodes[i]));
        if let Naming::Open(exported, name) = naming_inside(nodes, i, low, high) {
            assert forall|a: int|
                encloses(nodes, a, i) && #[trigger] encloses(nodes, e, a) implies !is_export(
                nodes[a],
            ) && !carries_name(nodes[a]) && nodes[a].kind != NodeKind::VariableDeclaration by {
                assert(at_or_around(nodes, a, i));
            }
            let met = lemma_up_to_export(nodes, e, i, low, high, exported, name);
            assert(met is None);
        }
    }
}

/// A name that was met stays, where nothing further up is exported or named.
proof fn lemma_name_stays(nodes: Seq<NodeView>, i: int, low: nat, high: nat, name: Seq<char>)
    requires
        forall|a: int| #[trigger] encloses(nodes, a, i) ==> !is_export(nodes[a]),
        forall|a: int| #[trigger] encloses(nodes, a, i) ==> !carries_name(nodes[a]),
    ensures
        names_up(nodes, i, low, high, false, Some(name)) == seq![name],
    decreases i,
{
    let parent = nodes[i].parent as int;
    if 0 <= parent < i {
        assert(encloses(nodes, parent, i));
        lemma_above_parent(nodes, i);
        lemma_name_stays(nodes, parent, low, high, name);
    }
}

/// What encloses the parent encloses the node.
proof fn lemma_above_parent(nodes: Seq<NodeView>, i: int)
    requires
        0 <= nodes[i].parent < i,
    ensures
        forall|a: int| #[trigger]
            encloses(nodes, a, nodes[i].parent as int) ==> encloses(nodes, a, i),
{
}

/// The outermost declaration that carries a name gives it, where nothing is
/// exported.
proof fn lemma_outermost_name(
    nodes: Seq<NodeView>,
    a: int,
    i: int,
    low: nat,
    high: nat,
    name: Option<Seq<char>>,
)
    requires
        encloses(nodes, a, i),
        carries_name(nodes[a]),
        forall|b: int| #[trigger] encloses(nodes, b, i) ==> !is_export(nodes[b]),
        forall|b: int| #[trigger] encloses(nodes, b, a) ==> !carries_name(nodes[b]),
    ensures
        names_up(nodes, i, low, high, false, name) == seq![nodes[a].name->0],
    decreases i,
{
    let parent = nodes[i].parent as int;
    assert(encloses(nodes, parent, i));
    lemma_above_parent(nodes, i);
    if parent == a {
        assert forall|b: int| #[trigger] encloses(nodes, b, a) implies !is_export(nodes[b]) by {
            assert(encloses(nodes, b, i));
        }
        lemma_name_stays(nodes, a, low, high, nodes[a].name->0);
    } else {
        if let Naming::Open(_, name) = naming_around(nodes, parent, low, high, false, name) {
            lemma_outermost_name(nodes, a, parent, low, high, name);
        }
    }
}

/// A position that no export holds is named by the outermost declaration around
/// its node that carries a name.
pub proof fn law_inside_declaration(
    nodes: Seq<NodeView>,
    offset: nat,
    low: nat,
    high: nat,
    a: int,
)
    requires
        innermost(nodes, offset, nodes.len()) matches Some(i) && is_unexported(nodes, i)
            && encloses(nodes, a, i),
        carries_name(nodes[a]),
        forall|b: int| #[trigger] encloses(nodes, b, a) ==> !carries_name(nodes[b]),
    ensures
        names_at(nodes, offset, low, high) == seq![nodes[a].name->0],
{
    let i = innermost(nodes, offset, nodes.len())->0;
    assert(at_or_around(nodes, i, i));
    assert forall|b: int| #[trigger] encloses(nodes, b, i) implies !is_export(nodes[b]) by {
        assert(at_or_around(nodes, b, i));
    }
    if let Naming::Open(exported, name) = naming_inside(nodes, i, low, high) {
        lemma_outermost_name(nodes, a, i, low, high, name);
    }
}

/// Where nothing further up is exported, named or a variable declaration, there is
/// no name.
proof fn lemma_no_name(nodes: Seq<NodeView>, i: int, low: nat, high: nat, exported: bool)
    requires
        forall|a: int| #[trigger] encloses(nodes, a, i) ==> !is_export(nodes[a]),
        exported || forall|a: int| #[trigger]
            encloses(nodes, a, i) ==> !carries_name(nodes[a]) && nodes[a].kind
                != NodeKind::VariableDeclaration,
    ensures
        names_up(nodes, i, low, high, exported, None) == Seq::<Seq<char>>::empty(),
    decreases i,
{
    let parent = nodes[i].parent as int;
    if 0 <= parent < i {
        assert(encloses(nodes, parent, i));
        lemma_above_parent(nodes, i);
        lemma_no_name(nodes, parent, low, high, exported);
    }
}

/// A position that nothing around it names has no name.
pub proof fn law_outside_declarations(nodes: Seq<NodeView>, offset: nat, low: nat, high: nat)
    requires
        innermost(nodes, offset, nodes.len()) matches Some(i) ==> is_unexported(nodes, i)
            && nodes[i].kind != NodeKind::VariableDeclaration && forall|a: int| #[trigger]
            encloses(nodes, a, i) ==> !carries_name(nodes[a]) && nodes[a].kind
                != NodeKind::VariableDeclaration,
    ensures
        names_at(nodes, offset, low, high) == Seq::<Seq<char>>::empty(),
{
    if let Some(i) = innermost(nodes, offset, nodes.len()) {
        assert(at_or_around(nodes, i, i));
        assert forall|b: int| #[trigger] encloses(nodes, b, i) implies !is_export(nodes[b]) by {
            assert(at_or_around(nodes, b, i));
        }
        lemma_no_name(nodes, i, low, high, false);
    }
}

/// The names that a variable declaration gives on the way up, where it is the only
/// one and nothing else is exported or named.
proof fn lemma_variables_around(nodes: Seq<NodeView>, v: int, i: int, low: nat, high: nat)
    requires
        encloses(nodes, v, i),
        nodes[v].kind == NodeKind::VariableDeclaration,
        forall|a: int| #[trigger]
            encloses(nodes, a, i) ==> !is_export(nodes[a]) && !carries_name(nodes[a]) && (a != v
                ==> nodes[a].kind != NodeKind::VariableDeclaration),
    ensures
        names_up(nodes, i, low, high, false, None) == match first_binding(nodes, v, 0) {
            Some(name) => seq![name],
            None => Seq::empty(),
        },
    decreases i,
{
    let parent = nodes[i].parent as int;
    assert(encloses(nodes, parent, i));
    lemma_above_parent(nodes, i);
    if parent == v {
        lemma_encloses_before(nodes, v, i);
        assert forall|a: int| #[trigger] encloses(nodes, a, v) implies a != v by {
            lemma_encloses_before(nodes, a, v);
        }
        match first_binding(nodes, v, 0) {
            Some(name) => lemma_name_stays(nodes, v, low, high, name),
            None => lemma_no_name(nodes, v, low, high, false),
        }
    } else {
        lemma_variables_around(nodes, v, parent, low, high);
    }
}

/// A position in variables that are not exported, and that nothing else names, is
/// named by the first plain name that they bind, where there is one.
pub proof fn law_inside_variables(
    nodes: Seq<NodeView>,
    offset: nat,
    low: nat,
    high: nat,
    v: int,
    d: int,
)
    requires
        innermost(nodes, offset, nodes.len()) matches Some(i) && is_unexported(nodes, i)
            && at_or_around(nodes, v, i) && forall|a: int| #[trigger]
            encloses(nodes, a, i) ==> !carries_name(nodes[a]),
        innermost(nodes, offset, nodes.len()) matches Some(i) && forall|a: int| #[trigger]
            at_or_around(nodes, a, i) && a != v ==> nodes[a].kind
                != NodeKind::VariableDeclaration,
        nodes[v].kind == NodeKind::VariableDeclaration,
    ensures
        is_first_binding(nodes, d, v) ==> names_at(nodes, offset, low, high)
            == seq![nodes[d].name->0],
        binds_nothing(nodes, v) ==> names_at(nodes, offset, low, high) == Seq::<Seq<char>>::empty(),
{
    let i = innermost(nodes, offset, nodes.len())->0;
    assert(at_or_around(nodes, i, i));
    assert forall|a: int| #[trigger] encloses(nodes, a, i) implies !is_export(nodes[a]) && (a != v
        ==> nodes[a].kind != NodeKind::VariableDeclaration) by {
        assert(at_or_around(nodes, a, i));
    }
    if is_first_binding(nodes, d, v) {
        lemma_first_binding(nodes, d, v, 0);
    }
    if binds_nothing(nodes, v) {
        lemma_no_binding(nodes, v, 0);
    }
    if i == v {
        assert forall|a: int| #[trigger] encloses(nodes, a, v) implies a != v by {
            lemma_encloses_before(nodes, a, v);
        }
        match first_binding(nodes, v, 0) {
            Some(name) => lemma_name_stays(nodes, v, low, high, name),
            None => lemma_no_name(nodes, v, low, high, false),
        }
    } else {
        lemma_variables_around(nodes, v, i, low, high);
    }
}

/// A position in an export that declares nothing with a name and lists nothing on
/// the position's line has no name, where no other export is around it.
pub proof fn law_inside_nameless_export(
    nodes: Seq<NodeView>,
    offset: nat,
    low: nat,
    high: nat,
    e: int,
    j: int,
)
    requires
        innermost(nodes, offset, nodes.len()) matches Some(i) && is_next_export(nodes, e, i),
        nodes[e].kind == NodeKind::ExportNamedDeclaration,
        forall|a: int| #[trigger] encloses(nodes, a, e) ==> !is_export(nodes[a]),
        is_declaration_of(nodes, j, e),
        forall|k: int| 0 <= k < j ==> !#[trigger] is_declaration_of(nodes, k, e),
        if nodes[j].kind == NodeKind::VariableDeclaration {
            binds_nothing(nodes, j)
        } else {
            nodes[j].name is None || nodes[j].kind == NodeKind::Namespace || nodes[j].kind
                == NodeKind::Global || nodes[j].kind == NodeKind::ImportEquals
        },
        specifiers_between(nodes, e, low, high, nodes.len()).len() == 0,
    ensures
        names_at(nodes, offset, low, high) == Seq::<Seq<char>>::empty(),
{
    let i = innermost(nodes, offset, nodes.len())->0;
    lemma_declaration(nodes, j, e, 0);
    if nodes[j].kind == NodeKind::VariableDeclaration {
        lemma_no_binding(nodes, j, 0);
    }
    lemma_no_name(nodes, e, low, high, true);
    if i != e {
        assert(encloses(nodes, e, i));
        assert(at_or_around(nodes, i, i));
        assert(!is_export(nodes[i]));
        if let Naming::Open(exported, name) = naming_inside(nodes, i, low, high) {
            assert forall|a: int|
                encloses(nodes, a, i) && #[trigger] encloses(nodes, e, a) implies !is_export(
                nodes[a],
            ) by {
                assert(at_or_around(nodes, a, i));
            }
            let met = lemma_up_to_export(nodes, e, i, low, high, exported, name);
        }
    }
}

/// A position in a list of exports none of whose specifiers meets the position's line
/// has no name, where no other export is around it.
pub proof fn law_beside_export_list(
    nodes: Seq<NodeView>,
    offset: nat,
    low: nat,
    high: nat,
    e: int,
)
    requires
        innermost(nodes, offset, nodes.len()) matches Some(i) && is_next_export(nodes, e, i)
            && is_nameless_between(nodes, e, i),
        nodes[e].kind == NodeKind::ExportNamedDeclaration,
        forall|a: int| #[trigger] encloses(nodes, a, e) ==> !is_export(nodes[a]),
        forall|k: int| 0 <= k < nodes.len() ==> !#[trigger] is_declaration_of(nodes, k, e),
        specifiers_between(nodes, e, low, high, nodes.len()).len() == 0,
    ensures
        names_at(nodes, offset, low, high) == Seq::<Seq<char>>::empty(),
{
    let i = innermost(nodes, offset, nodes.len())->0;
    lemma_no_declaration(nodes, e, 0);
    lemma_no_name(nodes, e, low, high, true);
    if i != e {
        assert(encloses(nodes, e, i));
        assert(at_or_around(nodes, i, i));
        assert(!is_export(nodes[i]));
        if let Naming::Open(exported, name) = naming_inside(nodes, i, low, high) {
            assert forall|a: int|
                encloses(nodes, a, i) && #[trigger] encloses(nodes, e, a) implies !is_export(
                nodes[a],
            ) && !carries_name(nodes[a]) && nodes[a].kind != NodeKind::VariableDeclaration by {
                assert(at_or_around(nodes, a, i));
            }
            let met = lemma_up_to_export(nodes, e, i, low, high, exported, name);
            assert(met is None);
        }
    }
}

/// The nearest variables on the way up that bind a plain name give it, where nothing
/// is exported or named.
proof fn lemma_nearest_variables(
    nodes: Seq<NodeView>,
    v: int,
    d: int,
    i: int,
    low: nat,
    high: nat,
)
    requires
        encloses(nodes, v, i),
        nodes[v].kind == NodeKind::VariableDeclaration,
        is_first_binding(nodes, d, v),
        forall|a: int| #[trigger]
            encloses(nodes, a, i) ==> !is_export(nodes[a]) && !carries_name(nodes[a]),
        forall|a: int|
            encloses(nodes, a, i) && #[trigger] encloses(nodes, v, a) && nodes[a].kind
                == NodeKind::VariableDeclaration ==> binds_nothing(nodes, a),
    ensures
        names_up(nodes, i, low, high, false, None) == seq![nodes[d].name->0],
    decreases i,
{
    let parent = nodes[i].parent as int;
    assert(encloses(nodes, parent, i));
    lemma_above_parent(nodes, i);
    if parent == v {
        lemma_first_binding(nodes, d, v, 0);
        lemma_name_stays(nodes, v, low, high, nodes[d].name->0);
    } else {
        assert(encloses(nodes, v, parent));
        if nodes[parent].kind == NodeKind::VariableDeclaration {
            lemma_no_binding(nodes, parent, 0);
        }
        assert forall|a: int|
            encloses(nodes, a, parent) && #[trigger] encloses(nodes, v, a) && nodes[a].kind
                == NodeKind::VariableDeclaration implies binds_nothing(nodes, a) by {
            assert(encloses(nodes, a, i));
        }
        lemma_nearest_variables(nodes, v, d, parent, low, high);
    }
}

/// A position in variables inside variables, none of them exported and with nothing
/// else around that carries a name, is named by the nearest that bind a plain name.
pub proof fn law_inside_nested_variables(
    nodes: Seq<NodeView>,
    offset: nat,
    low: nat,
    high: nat,
    v: int,
    d: int,
)
    requires
        innermost(nodes, offset, nodes.len()) matches Some(i) && is_unexported(nodes, i)
            && at_or_around(nodes, v, i) && forall|a: int| #[trigger]
            encloses(nodes, a, i) ==> !carries_name(nodes[a]),
        innermost(nodes, offset, nodes.len()) matches Some(i) && forall|a: int|
            at_or_around(nodes, a, i) && #[trigger] encloses(nodes, v, a) && nodes[a].kind
                == NodeKind::VariableDeclaration ==> binds_nothing(nodes, a),
        nodes[v].kind == NodeKind::VariableDeclaration,
        is_first_binding(nodes, d, v),
    ensures
        names_at(nodes, offset, low, high) == seq![nodes[d].name->0],
{
    let i = innermost(nodes, offset, nodes.len())->0;
    assert(at_or_around(nodes, i, i));
    assert forall|a: int| #[trigger] encloses(nodes, a, i) implies !is_export(nodes[a]) by {
        assert(at_or_around(nodes, a, i));
    }
    lemma_first_binding(nodes, d, v, 0);
    if i == v {
        lemma_name_stays(nodes, v, low, high, nodes[d].name->0);
    } else {
        assert(encloses(nodes, v, i));
        if nodes[i].kind == NodeKind::VariableDeclaration {
            lemma_no_binding(nodes, i, 0);
        }
        assert forall|a: int|
            encloses(nodes, a, i) && #[trigger] encloses(nodes, v, a) && nodes[a].kind
                == NodeKind::VariableDeclaration implies binds_nothing(nodes, a) by {
            assert(at_or_around(nodes, a, i));
        }
        lemma_nearest_variables(nodes, v, d, i, low, high);
    }
}

/// The node that an offset belongs to spans the offset, both ends counted; every
/// node that does is larger, or as large and either later or the whole program.
/// Where no node spans the offset, it belongs to none.
pub proof fn law_smallest_node(nodes: Seq<NodeView>, offset: nat, upto: nat)
    requires
        upto <= nodes.len(),
    ensures
        match innermost(nodes, offset, upto) {
            Some(i) => {
                &&& 0 <= i < upto
                &&& nodes[i].start <= offset <= nodes[i].end
                &&& forall|j: int|
                    0 <= j < upto && (#[trigger] nodes[j]).start <= offset <= nodes[j].end && j != i
                        ==> {
                        ||| nodes[i].end - nodes[i].start < nodes[j].end - nodes[j].start
                        ||| nodes[i].end - nodes[i].start == nodes[j].end - nodes[j].start && (i < j
                            || nodes[j].kind == NodeKind::Program) && (nodes[i].kind
                            == NodeKind::Program ==> nodes[j].kind == NodeKind::Program)
                    }
            },
            None => forall|j: int|
                0 <= j < upto ==> !((#[trigger] nodes[j]).start <= offset <= nodes[j].end),
        },
    decreases upto,
{
    if upto > 0 {
        law_smallest_node(nodes, offset, (upto - 1) as nat);
    }
}

} // verus!
