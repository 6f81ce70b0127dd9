//! Which declaration a position in a file belongs to.
use crate::semantic::module_graph::{
    exported_declaration, find_exported_declaration, is_child, or_empty,
};
use crate::semantic::syntax::{node_views, NodeKind, NodeView, SyntaxNode};
use crate::text::texts;
use crate::types::{copy_text, text_in};
use vstd::prelude::*;

verus! {

/// Whether a node's span holds an offset; its end counts as inside.
pub open spec fn holds_offset(node: NodeView, offset: nat) -> bool {
    node.start <= offset <= node.end
}

/// The size of a node's span.
pub open spec fn span_size(node: NodeView) -> int {
    node.end - node.start
}

/// Whether node `i` is to be taken rather than the later node `j`, where both
/// hold an offset: it is smaller, or as large and not the whole program unless
/// the other is it too.
pub open spec fn stays_ahead(nodes: Seq<NodeView>, i: int, j: int) -> bool {
    span_size(nodes[i]) < span_size(nodes[j]) || (span_size(nodes[i]) == span_size(nodes[j]) && (
    nodes[i].kind != NodeKind::Program || nodes[j].kind == NodeKind::Program))
}

/// The node that an offset belongs to, among the first `upto`: the smallest
/// that holds it; of those of one size, the first that is not the program.
pub open spec fn innermost(nodes: Seq<NodeView>, offset: nat, upto: nat) -> Option<int>
    decreases upto,
{
    if upto == 0 {
        None
    } else {
        let before = innermost(nodes, offset, (upto - 1) as nat);
        let j = upto - 1;
        if !holds_offset(nodes[j], offset) {
            before
        } else {
            match before {
                Some(i) => if stays_ahead(nodes, i, j) {
                    before
                } else {
                    Some(j)
                },
                None => Some(j),
            }
        }
    }
}

/// The first identifier that variable declaration `i` binds, from node `from`
/// on.
pub open spec fn first_binding(nodes: Seq<NodeView>, i: int, from: int) -> Option<Seq<char>>
    decreases nodes.len() - from,
{
    if from >= nodes.len() {
        None
    } else if is_child(nodes, from, i) && nodes[from].kind == NodeKind::VariableDeclarator
        && nodes[from].name is Some {
        nodes[from].name
    } else {
        first_binding(nodes, i, from + 1)
    }
}

/// The name that an exported declaration declares.
pub open spec fn declared_name(nodes: Seq<NodeView>, i: int) -> Option<Seq<char>> {
    match nodes[i].kind {
        NodeKind::VariableDeclaration => first_binding(nodes, i, 0),
        NodeKind::Function | NodeKind::Class | NodeKind::Interface | NodeKind::TypeAlias
        | NodeKind::Enum => nodes[i].name,
        _ => None,
    }
}

/// The exported names of the specifiers of export `i` whose span meets the bytes
/// from `low` to `high`, among the first `upto` nodes.
pub open spec fn specifiers_between(
    nodes: Seq<NodeView>,
    i: int,
    low: nat,
    high: nat,
    upto: nat,
) -> Seq<Seq<char>>
    decreases upto,
{
    if upto == 0 {
        Seq::empty()
    } else {
        let before = specifiers_between(nodes, i, low, high, (upto - 1) as nat);
        let node = nodes[upto - 1];
        match node.name {
            Some(name) => if is_child(nodes, upto - 1, i) && node.kind == NodeKind::ExportSpecifier
                && node.start <= high && node.end >= low {
                before.push(name)
            } else {
                before
            },
            None => before,
        }
    }
}

/// What is known of a position's declaration on the way up the tree.
#[verifier::ext_equal]
pub enum Naming {
    /// Nothing final: whether an export was met, and the name so far.
    Open(bool, Option<Seq<char>>),
    /// The names are these.
    Final(Seq<Seq<char>>),
}

/// What named export `i` says of a position inside it, where `name` is the name
/// so far: the name of its declaration, or the specifiers on the position's
/// line.
pub open spec fn naming_at_export(
    nodes: Seq<NodeView>,
    i: int,
    low: nat,
    high: nat,
    name: Option<Seq<char>>,
) -> Naming {
    let declared = match exported_declaration(nodes, i, 0) {
        Some(j) => declared_name(nodes, j),
        None => name,
    };
    let listed = specifiers_between(nodes, i, low, high, nodes.len());
    match declared {
        Some(text) => Naming::Final(seq![text]),
        None => if listed.len() > 0 {
            Naming::Final(listed)
        } else {
            Naming::Open(true, None)
        },
    }
}

/// What the node that a position belongs to says of it.
pub open spec fn naming_inside(nodes: Seq<NodeView>, i: int, low: nat, high: nat) -> Naming {
    match nodes[i].kind {
        NodeKind::ExportNamedDeclaration => naming_at_export(nodes, i, low, high, None),
        NodeKind::ExportDefaultDeclaration => Naming::Final(seq!["default"@]),
        NodeKind::VariableDeclaration => Naming::Open(false, first_binding(nodes, i, 0)),
        _ => Naming::Open(false, None),
    }
}

/// What an enclosing node says of a position. Once an export was met, only
/// exports count.
pub open spec fn naming_around(
    nodes: Seq<NodeView>,
    i: int,
    low: nat,
    high: nat,
    exported: bool,
    name: Option<Seq<char>>,
) -> Naming {
    match nodes[i].kind {
        NodeKind::ExportNamedDeclaration => naming_at_export(nodes, i, low, high, name),
        NodeKind::ExportDefaultDeclaration => Naming::Final(seq!["default"@]),
        NodeKind::Function | NodeKind::Class | NodeKind::VariableDeclarator | NodeKind::Interface
        | NodeKind::TypeAlias | NodeKind::Enum => if !exported && nodes[i].name is Some {
            Naming::Open(exported, nodes[i].name)
        } else {
            Naming::Open(exported, name)
        },
        NodeKind::VariableDeclaration => if !exported && name is None {
            Naming::Open(exported, first_binding(nodes, i, 0))
        } else {
            Naming::Open(exported, name)
        },
        _ => Naming::Open(exported, name),
    }
}

/// The names of a position, with what is known of it at node `i`: what the
/// enclosing nodes say, from the inside out.
pub open spec fn names_up(
    nodes: Seq<NodeView>,
    i: int,
    low: nat,
    high: nat,
    exported: bool,
    name: Option<Seq<char>>,
) -> Seq<Seq<char>>
    decreases i,
{
    let parent = nodes[i].parent as int;
    if 0 <= parent < i {
        match naming_around(nodes, parent, low, high, exported, name) {
            Naming::Final(names) => names,
            Naming::Open(exported, name) => names_up(nodes, parent, low, high, exported, name),
        }
    } else {
        match name {
            Some(text) => seq![text],
            None => Seq::empty(),
        }
    }
}

/// The names of the declarations that an offset belongs to, on a line that takes
/// the bytes from `low` to `high`.
pub open spec fn names_at(nodes: Seq<NodeView>, offset: nat, low: nat, high: nat) -> Seq<
    Seq<char>,
> {
    match innermost(nodes, offset, nodes.len()) {
        Some(i) => match naming_inside(nodes, i, low, high) {
            Naming::Final(names) => names,
            Naming::Open(exported, name) => names_up(nodes, i, low, high, exported, name),
        },
        None => Seq::empty(),
    }
}

/// The names that nodes carry, and the name of a default export.
pub open spec fn known_names(nodes: Seq<NodeView>) -> Seq<Seq<char>> {
    nodes.map_values(|node: NodeView| or_empty(node.name)).push("default"@)
}

/// Whether a name, where there is one, is known.
spec fn is_known(nodes: Seq<NodeView>, name: Option<Seq<char>>) -> bool {
    name matches Some(text) ==> known_names(nodes).contains(text)
}

/// Whether all of some names are known.
pub open spec fn are_known(nodes: Seq<NodeView>, names: Seq<Seq<char>>) -> bool {
    forall|k: int| 0 <= k < names.len() ==> known_names(nodes).contains(#[trigger] names[k])
}

/// The name of a node is known.
proof fn lemma_node_known(nodes: Seq<NodeView>, i: int)
    requires
        0 <= i < nodes.len(),
    ensures
        is_known(nodes, nodes[i].name),
{
    if let Some(text) = nodes[i].name {
        assert(known_names(nodes)[i] == text);
    }
}

/// What a variable declaration binds is known.
proof fn lemma_binding_known(nodes: Seq<NodeView>, i: int, from: int)
    requires
        0 <= from,
    ensures
        is_known(nodes, first_binding(nodes, i, from)),
    decreases nodes.len() - from,
{
    if from < nodes.len() {
        lemma_node_known(nodes, from);
        lemma_binding_known(nodes, i, from + 1);
    }
}

/// The specifiers of an export are known.
proof fn lemma_specifiers_known(nodes: Seq<NodeView>, i: int, low: nat, high: nat, upto: nat)
    requires
        upto <= nodes.len(),
    ensures
        are_known(nodes, specifiers_between(nodes, i, low, high, upto)),
    decreases upto,
{
    if upto > 0 {
        lemma_specifiers_known(nodes, i, low, high, (upto - 1) as nat);
        lemma_node_known(nodes, upto - 1);
    }
}

/// The declaration inside an export is one of the nodes.
proof fn lemma_declaration_is_node(nodes: Seq<NodeView>, i: int, from: int)
    requires
        0 <= from,
    ensures
        exported_declaration(nodes, i, from) matches Some(j) ==> 0 <= j < nodes.len(),
    decreases nodes.len() - from,
{
    if from < nodes.len() {
        lemma_declaration_is_node(nodes, i, from + 1);
    }
}

/// Whether what is said of a position is known.
spec fn is_known_naming(nodes: Seq<NodeView>, naming: Naming) -> bool {
    match naming {
        Naming::Open(_, name) => is_known(nodes, name),
        Naming::Final(names) => are_known(nodes, names),
    }
}

/// What a named export says is known, where the name so far is.
proof fn lemma_export_known(
    nodes: Seq<NodeView>,
    i: int,
    low: nat,
    high: nat,
    name: Option<Seq<char>>,
)
    requires
        is_known(nodes, name),
    ensures
        is_known_naming(nodes, naming_at_export(nodes, i, low, high, name)),
{
    lemma_declaration_is_node(nodes, i, 0);
    lemma_specifiers_known(nodes, i, low, high, nodes.len());
    if let Some(j) = exported_declaration(nodes, i, 0) {
        lemma_node_known(nodes, j);
        lemma_binding_known(nodes, j, 0);
    }
}

/// What an enclosing node says is known, where the name so far is.
proof fn lemma_around_known(
    nodes: Seq<NodeView>,
    i: int,
    low: nat,
    high: nat,
    exported: bool,
    name: Option<Seq<char>>,
)
    requires
        0 <= i < nodes.len(),
        is_known(nodes, name),
    ensures
        is_known_naming(nodes, naming_around(nodes, i, low, high, exported, name)),
{
    lemma_export_known(nodes, i, low, high, name);
    lemma_node_known(nodes, i);
    lemma_binding_known(nodes, i, 0);
    assert(known_names(nodes)[nodes.len() as int] == "default"@);
}

/// What the enclosing nodes say is known, where the name so far is.
proof fn lemma_up_known(
    nodes: Seq<NodeView>,
    i: int,
    low: nat,
    high: nat,
    exported: bool,
    name: Option<Seq<char>>,
)
    requires
        0 <= i < nodes.len(),
        is_known(nodes, name),
    ensures
        are_known(nodes, names_up(nodes, i, low, high, exported, name)),
    decreases i,
{
    let parent = nodes[i].parent as int;
    if 0 <= parent < i {
        lemma_around_known(nodes, parent, low, high, exported, name);
        if let Naming::Open(exported, name) = naming_around(
            nodes,
            parent,
            low,
            high,
            exported,
            name,
        ) {
            lemma_up_known(nodes, parent, low, high, exported, name);
        }
    }
}

/// Every name that a position gives is the name of a node, or that of a default
/// export.
pub proof fn law_names_are_known(nodes: Seq<NodeView>, offset: nat, low: nat, high: nat)
    ensures
        are_known(nodes, names_at(nodes, offset, low, high)),
{
    lemma_innermost(nodes, offset, nodes.len());
    if let Some(i) = innermost(nodes, offset, nodes.len()) {
        lemma_export_known(nodes, i, low, high, None);
        lemma_binding_known(nodes, i, 0);
        assert(known_names(nodes)[nodes.len() as int] == "default"@);
        if let Naming::Open(exported, name) = naming_inside(nodes, i, low, high) {
            lemma_up_known(nodes, i, low, high, exported, name);
        }
    }
}

/// The innermost node is one of the nodes, and holds the offset.
proof fn lemma_innermost(nodes: Seq<NodeView>, offset: nat, upto: nat)
    requires
        upto <= nodes.len(),
    ensures
        match innermost(nodes, offset, upto) {
            Some(i) => 0 <= i < upto && holds_offset(nodes[i], offset),
            None => true,
        },
    decreases upto,
{
    if upto > 0 {
        lemma_innermost(nodes, offset, (upto - 1) as nat);
    }
}

/// The node that an offset belongs to holds it, and no node that holds it is
/// smaller; the whole program is taken only where no other node of its size
/// holds the offset. Where some node holds the offset, there is one.
pub proof fn law_innermost_is_smallest(nodes: Seq<NodeView>, offset: nat, upto: nat, j: int)
    requires
        0 <= j < upto <= nodes.len(),
        holds_offset(nodes[j], offset),
    ensures
        match innermost(nodes, offset, upto) {
            Some(i) => 0 <= i < upto && holds_offset(nodes[i], offset) && span_size(nodes[i])
                <= span_size(nodes[j]) && (span_size(nodes[i]) == span_size(nodes[j])
                && nodes[i].kind == NodeKind::Program ==> nodes[j].kind == NodeKind::Program),
            None => false,
        },
    decreases upto,
{
    lemma_innermost(nodes, offset, upto);
    lemma_innermost(nodes, offset, (upto - 1) as nat);
    if j < upto - 1 {
        law_innermost_is_smallest(nodes, offset, (upto - 1) as nat, j);
    }
}

/// The node that an offset belongs to.
fn find_innermost(nodes: &Vec<SyntaxNode>, offset: usize) -> (r: Option<usize>)
    ensures
        match r {
            Some(i) => i < nodes@.len() && innermost(
                node_views(nodes@),
                offset as nat,
                nodes@.len(),
            ) == Some(i as int),
            None => innermost(node_views(nodes@), offset as nat, nodes@.len()) is None,
        },
{
    let ghost views = node_views(nodes@);
    let mut best: Option<usize> = None;
    let mut j: usize = 0;
    while j < nodes.len()
        invariant
            views == node_views(nodes@),
            j <= nodes@.len(),
            match best {
                Some(i) => i < j && holds_offset(views[i as int], offset as nat) && innermost(
                    views,
                    offset as nat,
                    j as nat,
                ) == Some(i as int),
                None => innermost(views, offset as nat, j as nat) is None,
            },
        decreases nodes@.len() - j,
    {
        let node: &SyntaxNode = &nodes[j];
        proof {
            assert(views[j as int] == node@);
        }
        if node.start <= offset && node.end >= offset {
            best = match best {
                Some(i) => {
                    proof {
                        assert(views[i as int] == nodes@[i as int]@);
                    }
                    let size: usize = node.end - node.start;
                    let least: usize = nodes[i].end - nodes[i].start;
                    let prefer: bool = nodes[i].kind != NodeKind::Program || node.kind
                        == NodeKind::Program;
                    if least < size || (least == size && prefer) {
                        Some(i)
                    } else {
                        Some(j)
                    }
                },
                None => Some(j),
            };
        }
        j = j + 1;
    }
    best
}

/// The first identifier that variable declaration `i` binds.
fn first_binding_name_from_var_decl(nodes: &Vec<SyntaxNode>, i: usize) -> (r: Option<String>)
    requires
        i < nodes@.len(),
    ensures
        text_in(r) == first_binding(node_views(nodes@), i as int, 0),
{
    let ghost views = node_views(nodes@);
    let mut j: usize = 0;
    while j < nodes.len()
        invariant
            views == node_views(nodes@),
            i < nodes@.len(),
            j <= nodes@.len(),
            first_binding(views, i as int, 0) == first_binding(views, i as int, j as int),
        decreases nodes@.len() - j,
    {
        let node: &SyntaxNode = &nodes[j];
        proof {
            assert(views[j as int] == node@);
        }
        if node.kind == NodeKind::VariableDeclarator && j != i && node.parent == i {
            if let Some(name) = &node.name {
                return Some(name.clone());
            }
        }
        j = j + 1;
    }
    None
}

/// The name that an exported declaration declares.
///
/// Handles various export patterns:
/// - export const/let/var X = ...
/// - export function X() {}
/// - export class X {}
/// - export interface X {}
/// - export type X = ...
/// - export enum X {}
fn extract_symbol_from_export_decl(nodes: &Vec<SyntaxNode>, i: usize) -> (r: Option<String>)
    requires
        i < nodes@.len(),
    ensures
        text_in(r) == declared_name(node_views(nodes@), i as int),
{
    proof {
        assert(node_views(nodes@)[i as int] == nodes@[i as int]@);
    }
    match nodes[i].kind {
        NodeKind::VariableDeclaration => first_binding_name_from_var_decl(nodes, i),
        NodeKind::Function | NodeKind::Class | NodeKind::Interface | NodeKind::TypeAlias
        | NodeKind::Enum => copy_text(&nodes[i].name),
        _ => None,
    }
}

/// The exported names of the specifiers of export `i` whose span meets the bytes
/// from `low` to `high`.
fn specifier_names_on_line(nodes: &Vec<SyntaxNode>, i: usize, low: usize, high: usize) -> (r: Vec<
    String,
>)
    requires
        i < nodes@.len(),
    ensures
        texts(r@) == specifiers_between(
            node_views(nodes@),
            i as int,
            low as nat,
            high as nat,
            nodes@.len(),
        ),
{
    let ghost views = node_views(nodes@);
    let mut r: Vec<String> = Vec::new();
    let mut j: usize = 0;
    proof {
        assert(texts(r@) =~= Seq::<Seq<char>>::empty());
    }
    while j < nodes.len()
        invariant
            views == node_views(nodes@),
            i < nodes@.len(),
            j <= nodes@.len(),
            texts(r@) == specifiers_between(views, i as int, low as nat, high as nat, j as nat),
        decreases nodes@.len() - j,
    {
        let node: &SyntaxNode = &nodes[j];
        proof {
            assert(views[j as int] == node@);
        }
        if node.kind == NodeKind::ExportSpecifier && j != i && node.parent == i && node.start
            <= high && node.end >= low {
            if let Some(name) = &node.name {
                let ghost before = r@;
                r.push(name.clone());
                proof {
                    assert(texts(r@) =~= texts(before).push(name@));
                }
            }
        }
        j = j + 1;
    }
    r
}

/// What is known of a position's declaration on the way up the tree.
enum Step {
    Open(bool, Option<String>),
    Final(Vec<String>),
}

impl View for Step {
    type V = Naming;

    closed spec fn view(&self) -> Naming {
        match self {
            Step::Open(exported, name) => Naming::Open(*exported, text_in(*name)),
            Step::Final(names) => Naming::Final(texts(names@)),
        }
    }
}

/// A list of one name.
fn one_name(name: String) -> (r: Vec<String>)
    ensures
        texts(r@) == seq![name@],
{
    let mut r: Vec<String> = Vec::new();
    r.push(name);
    proof {
        assert(texts(r@) =~= seq![name@]);
    }
    r
}

/// What named export `i` says of a position inside it.
fn step_at_export(
    nodes: &Vec<SyntaxNode>,
    i: usize,
    low: usize,
    high: usize,
    name: Option<String>,
) -> (r: Step)
    requires
        i < nodes@.len(),
    ensures
        r@ == naming_at_export(
            node_views(nodes@),
            i as int,
            low as nat,
            high as nat,
            text_in(name),
        ),
{
    let declared: Option<String> = match find_exported_declaration(nodes, i) {
        Some(j) => extract_symbol_from_export_decl(nodes, j),
        None => name,
    };
    match declared {
        Some(text) => Step::Final(one_name(text)),
        None => {
            let names: Vec<String> = specifier_names_on_line(nodes, i, low, high);
            proof {
                assert(texts(names@).len() == names@.len());
            }
            if names.len() > 0 {
                Step::Final(names)
            } else {
                Step::Open(true, None)
            }
        },
    }
}

/// What the node that a position belongs to says of it.
fn step_inside(nodes: &Vec<SyntaxNode>, i: usize, low: usize, high: usize) -> (r: Step)
    requires
        i < nodes@.len(),
    ensures
        r@ == naming_inside(node_views(nodes@), i as int, low as nat, high as nat),
{
    proof {
        assert(node_views(nodes@)[i as int] == nodes@[i as int]@);
    }
    match nodes[i].kind {
        NodeKind::ExportNamedDeclaration => step_at_export(nodes, i, low, high, None),
        NodeKind::ExportDefaultDeclaration => Step::Final(one_name("default".to_owned())),
        NodeKind::VariableDeclaration => Step::Open(
            false,
            first_binding_name_from_var_decl(nodes, i),
        ),
        _ => Step::Open(false, None),
    }
}

/// What an enclosing node says of a position.
fn step_around(
    nodes: &Vec<SyntaxNode>,
    i: usize,
    low: usize,
    high: usize,
    exported: bool,
    name: Option<String>,
) -> (r: Step)
    requires
        i < nodes@.len(),
    ensures
        r@ == naming_around(
            node_views(nodes@),
            i as int,
            low as nat,
            high as nat,
            exported,
            text_in(name),
        ),
{
    proof {
        assert(node_views(nodes@)[i as int] == nodes@[i as int]@);
    }
    match nodes[i].kind {
        NodeKind::ExportNamedDeclaration => step_at_export(nodes, i, low, high, name),
        NodeKind::ExportDefaultDeclaration => Step::Final(one_name("default".to_owned())),
        NodeKind::Function | NodeKind::Class | NodeKind::VariableDeclarator | NodeKind::Interface
        | NodeKind::TypeAlias | NodeKind::Enum => if !exported && nodes[i].name.is_some() {
            Step::Open(exported, copy_text(&nodes[i].name))
        } else {
            Step::Open(exported, name)
        },
        NodeKind::VariableDeclaration => if !exported && name.is_none() {
            Step::Open(exported, first_binding_name_from_var_decl(nodes, i))
        } else {
            Step::Open(exported, name)
        },
        _ => Step::Open(exported, name),
    }
}

/// The names of the declarations that an offset belongs to, on a line that takes
/// the bytes from `low` to `high`.
pub fn find_names_at(nodes: &Vec<SyntaxNode>, offset: usize, low: usize, high: usize) -> (r: Vec<
    String,
>)
    ensures
        texts(r@) == names_at(node_views(nodes@), offset as nat, low as nat, high as nat),
{
    let ghost views = node_views(nodes@);
    let start: usize = match find_innermost(nodes, offset) {
        Some(i) => i,
        None => {
            let none: Vec<String> = Vec::new();
            proof {
                assert(texts(none@) =~= Seq::<Seq<char>>::empty());
            }
            return none;
        },
    };
    let mut exported: bool;
    let mut name: Option<String>;
    match step_inside(nodes, start, low, high) {
        Step::Final(names) => {
            return names;
        },
        Step::Open(met, text) => {
            exported = met;
            name = text;
        },
    }
    let mut current: usize = start;
    proof {
        assert(views[current as int] == nodes@[current as int]@);
    }
    while nodes[current].parent < current
        invariant
            views == node_views(nodes@),
            current < nodes@.len(),
            views[current as int] == nodes@[current as int]@,
            names_at(views, offset as nat, low as nat, high as nat) == names_up(
                views,
                current as int,
                low as nat,
                high as nat,
                exported,
                text_in(name),
            ),
        decreases current,
    {
        let parent: usize = nodes[current].parent;
        match step_around(nodes, parent, low, high, exported, name) {
            Step::Final(names) => {
                return names;
            },
            Step::Open(met, text) => {
                exported = met;
                name = text;
            },
        }
        current = parent;
        proof {
            assert(views[current as int] == nodes@[current as int]@);
        }
    }
    match name {
        Some(text) => one_name(text),
        None => {
            let none: Vec<String> = Vec::new();
            proof {
                assert(texts(none@) =~= Seq::<Seq<char>>::empty());
            }
            none
        },
    }
}

} // verus!
