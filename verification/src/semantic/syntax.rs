//! The syntax tree of a source file as a flat list of nodes, and its symbols.
//!
//! Parsing and symbol resolution are oxc's; the library reads out of its tree
//! the positions, kinds and names that the analysis looks at.
use crate::types::text_in;
use oxc_allocator::Allocator;
use oxc_ast::ast::{Expression, TSTypeName};
use oxc_ast::AstKind;
use oxc_parser::Parser;
use oxc_semantic::{Semantic, SemanticBuilder};
use oxc_span::{GetSpan, SourceType};
use std::path::Path;
use vstd::prelude::*;

verus! {

/// What a syntax node is, as far as the analysis tells nodes apart.
#[derive(Debug, Clone, Copy, PartialEq, Eq, Structural)]
pub enum NodeKind {
    /// The whole file.
    Program,
    /// `import ... from "module"`.
    ImportDeclaration,
    /// `imported as local` in an import declaration.
    ImportSpecifier,
    /// The default binding of an import declaration.
    ImportDefaultSpecifier,
    /// `* as local` in an import declaration.
    ImportNamespaceSpecifier,
    /// `import("module")`.
    ImportExpression,
    /// `export { ... }`, `export { ... } from "module"` or `export const ...`.
    ExportNamedDeclaration,
    /// `local as exported` in a named export.
    ExportSpecifier,
    /// `export default ...`.
    ExportDefaultDeclaration,
    /// `export * from "module"`.
    ExportAllDeclaration,
    /// `const`, `let` or `var` with its declarators.
    VariableDeclaration,
    /// One binding of a variable declaration.
    VariableDeclarator,
    /// A function declaration or expression.
    Function,
    /// A class declaration or expression.
    Class,
    /// `interface X { ... }`.
    Interface,
    /// `type X = ...`.
    TypeAlias,
    /// `enum X { ... }`.
    Enum,
    /// `namespace X { ... }` or `module X { ... }`.
    Namespace,
    /// `global { ... }`.
    Global,
    /// `import x = ...`.
    ImportEquals,
    /// `object.property`.
    StaticMember,
    /// `left.right` in a type.
    QualifiedName,
    /// Anything else.
    Other,
}

/// A node of a syntax tree.
#[derive(Debug, Clone)]
pub struct SyntaxNode {
    /// Byte offset at which the node begins.
    pub start: usize,
    /// Byte offset behind the node's end.
    pub end: usize,
    /// Position of the parent in the list of nodes; the root is its own parent.
    pub parent: usize,
    pub kind: NodeKind,
    /// The name that the node declares, imports, exports or accesses.
    pub name: Option<String>,
    /// The local name of an import or export, or the name left of the dot of an
    /// access.
    pub local: Option<String>,
    /// The module that an import or export names.
    pub module: Option<String>,
    /// Whether an import is for types alone.
    pub is_type: bool,
}

/// What a [`SyntaxNode`] stands for.
#[verifier::ext_equal]
pub struct NodeView {
    pub start: usize,
    pub end: usize,
    pub parent: usize,
    pub kind: NodeKind,
    pub name: Option<Seq<char>>,
    pub local: Option<Seq<char>>,
    pub module: Option<Seq<char>>,
    pub is_type: bool,
}

impl View for SyntaxNode {
    type V = NodeView;

    open spec fn view(&self) -> NodeView {
        NodeView {
            start: self.start,
            end: self.end,
            parent: self.parent,
            kind: self.kind,
            name: text_in(self.name),
            local: text_in(self.local),
            module: text_in(self.module),
            is_type: self.is_type,
        }
    }
}

/// What a file's symbols stand for: a name, and the byte offset of each
/// reference to it.
#[verifier::ext_equal]
pub struct SymbolView {
    pub name: Seq<char>,
    pub references: Seq<usize>,
}

/// A symbol of a file.
#[derive(Debug, Clone)]
pub struct Symbol {
    pub name: String,
    /// Byte offset of each reference to the symbol.
    pub references: Vec<usize>,
}

impl View for Symbol {
    type V = SymbolView;

    open spec fn view(&self) -> SymbolView {
        SymbolView { name: self.name@, references: self.references@ }
    }
}

/// The arena that oxc builds its trees in.
#[verifier::external_type_specification]
#[verifier::external_body]
pub struct ExAllocator(oxc_allocator::Allocator);

/// oxc's tree and symbol table of one file.
#[verifier::external_type_specification]
#[verifier::external_body]
pub struct ExSemantic<'a>(oxc_semantic::Semantic<'a>);

/// The nodes of a file's tree, each behind its parent.
pub uninterp spec fn nodes_in(semantic: &Semantic) -> Seq<NodeView>;

/// The symbols of a file, in the order of their declaration.
pub uninterp spec fn symbols_in(semantic: &Semantic) -> Seq<SymbolView>;

/// The nodes that oxc's parser finds in a source text at a path.
pub uninterp spec fn parsed_nodes(source: Seq<char>, path: Seq<char>) -> Seq<NodeView>;

/// The symbols that oxc's semantic builder finds in a source text at a path.
pub uninterp spec fn parsed_symbols(source: Seq<char>, path: Seq<char>) -> Seq<SymbolView>;

/// `Allocator::default` makes an empty arena.
#[verifier::external_body]
fn new_allocator() -> Allocator {
    Allocator::default()
}

/// `Parser::parse` and `SemanticBuilder::build` on a source text; the path
/// decides on the dialect (`SourceType::from_path`, and TypeScript where the
/// extension tells nothing). What they find depends on these two texts alone.
#[verifier::external_body]
fn analyze<'a>(allocator: &'a Allocator, source: &'a str, path: &str) -> (semantic: Semantic<'a>)
    ensures
        nodes_in(&semantic) == parsed_nodes(source@, path@),
        symbols_in(&semantic) == parsed_symbols(source@, path@),
{
    let source_type = SourceType::from_path(Path::new(path))
        .unwrap_or_else(|_| SourceType::default().with_typescript(true));
    let program = allocator.alloc(Parser::new(allocator, source, source_type).parse().program);
    let builder = SemanticBuilder::new().with_cfg(true).with_check_syntax_error(false);
    builder.build(program).semantic
}

/// `AstNodes::len`: how many nodes there are.
#[verifier::external_body]
fn node_count(semantic: &Semantic) -> (r: usize)
    ensures
        r == nodes_in(semantic).len(),
{
    semantic.nodes().len()
}

/// The span of a node and its parent's number (`AstNodes::parent_id`).
#[verifier::external_body]
fn node_place(semantic: &Semantic, i: usize) -> (r: (usize, usize, usize))
    requires
        i < nodes_in(semantic).len(),
    ensures
        r.0 == nodes_in(semantic)[i as int].start,
        r.1 == nodes_in(semantic)[i as int].end,
        r.2 == nodes_in(semantic)[i as int].parent,
{
    let nodes = semantic.nodes();
    let node = nodes.iter().nth(i).unwrap();
    let span = node.kind().span();
    (span.start as usize, span.end as usize, nodes.parent_id(node.id()).index())
}

/// Whether a kind is one of those by which files import from and export to each
/// other.
pub open spec fn is_module_kind(kind: NodeKind) -> bool {
    match kind {
        NodeKind::ImportDeclaration | NodeKind::ImportSpecifier
        | NodeKind::ImportDefaultSpecifier | NodeKind::ImportNamespaceSpecifier
        | NodeKind::ImportExpression | NodeKind::ExportNamedDeclaration
        | NodeKind::ExportSpecifier | NodeKind::ExportDefaultDeclaration
        | NodeKind::ExportAllDeclaration => true,
        _ => false,
    }
}

/// The kind of a node that imports or exports: the variant of its `AstKind`.
#[verifier::external_body]
fn module_kind(semantic: &Semantic, i: usize) -> (r: Option<NodeKind>)
    requires
        i < nodes_in(semantic).len(),
    ensures
        match r {
            Some(kind) => kind == nodes_in(semantic)[i as int].kind,
            None => !is_module_kind(nodes_in(semantic)[i as int].kind),
        },
{
    Some(match semantic.nodes().iter().nth(i).unwrap().kind() {
        AstKind::ImportDeclaration(_) => NodeKind::ImportDeclaration,
        AstKind::ImportSpecifier(_) => NodeKind::ImportSpecifier,
        AstKind::ImportDefaultSpecifier(_) => NodeKind::ImportDefaultSpecifier,
        AstKind::ImportNamespaceSpecifier(_) => NodeKind::ImportNamespaceSpecifier,
        AstKind::ImportExpression(_) => NodeKind::ImportExpression,
        AstKind::ExportNamedDeclaration(_) => NodeKind::ExportNamedDeclaration,
        AstKind::ExportSpecifier(_) => NodeKind::ExportSpecifier,
        AstKind::ExportDefaultDeclaration(_) => NodeKind::ExportDefaultDeclaration,
        AstKind::ExportAllDeclaration(_) => NodeKind::ExportAllDeclaration,
        _ => return None,
    })
}

/// Whether a kind is one of those that `export` can stand before.
pub open spec fn is_declaration(kind: NodeKind) -> bool {
    match kind {
        NodeKind::VariableDeclaration | NodeKind::Function | NodeKind::Class
        | NodeKind::Interface | NodeKind::TypeAlias | NodeKind::Enum | NodeKind::Namespace
        | NodeKind::Global | NodeKind::ImportEquals => true,
        _ => false,
    }
}

/// The kind of a node that declares something: the variant of its `AstKind`.
#[verifier::external_body]
fn declaration_kind(semantic: &Semantic, i: usize) -> (r: Option<NodeKind>)
    requires
        i < nodes_in(semantic).len(),
    ensures
        match r {
            Some(kind) => kind == nodes_in(semantic)[i as int].kind,
            None => !is_declaration(nodes_in(semantic)[i as int].kind),
        },
{
    Some(match semantic.nodes().iter().nth(i).unwrap().kind() {
        AstKind::VariableDeclaration(_) => NodeKind::VariableDeclaration,
        AstKind::Function(_) => NodeKind::Function,
        AstKind::Class(_) => NodeKind::Class,
        AstKind::TSInterfaceDeclaration(_) => NodeKind::Interface,
        AstKind::TSTypeAliasDeclaration(_) => NodeKind::TypeAlias,
        AstKind::TSEnumDeclaration(_) => NodeKind::Enum,
        AstKind::TSModuleDeclaration(_) => NodeKind::Namespace,
        AstKind::TSGlobalDeclaration(_) => NodeKind::Global,
        AstKind::TSImportEqualsDeclaration(_) => NodeKind::ImportEquals,
        _ => return None,
    })
}

/// The kind of a node that neither imports, exports nor declares: the variant of
/// its `AstKind`, where the analysis tells it apart.
#[verifier::external_body]
fn plain_kind(semantic: &Semantic, i: usize) -> (r: NodeKind)
    requires
        i < nodes_in(semantic).len(),
        !is_module_kind(nodes_in(semantic)[i as int].kind),
        !is_declaration(nodes_in(semantic)[i as int].kind),
    ensures
        r == nodes_in(semantic)[i as int].kind,
{
    match semantic.nodes().iter().nth(i).unwrap().kind() {
        AstKind::Program(_) => NodeKind::Program,
        AstKind::VariableDeclarator(_) => NodeKind::VariableDeclarator,
        AstKind::StaticMemberExpression(_) => NodeKind::StaticMember,
        AstKind::TSQualifiedName(_) => NodeKind::QualifiedName,
        _ => NodeKind::Other,
    }
}

/// The name in a node: what a specifier imports or exports, a declaration
/// declares (a declarator only where it binds an identifier), or an access
/// reads; none in any other node.
#[verifier::external_body]
fn node_name(semantic: &Semantic, i: usize) -> (r: Option<String>)
    requires
        i < nodes_in(semantic).len(),
    ensures
        text_in(r) == nodes_in(semantic)[i as int].name,
{
    let name = match semantic.nodes().iter().nth(i).unwrap().kind() {
        AstKind::ImportSpecifier(node) => Some(node.imported.name()),
        AstKind::ExportSpecifier(node) => Some(node.exported.name()),
        AstKind::VariableDeclarator(node) => node.id.get_identifier_name(),
        AstKind::Function(node) => node.name(),
        AstKind::Class(node) => node.name(),
        AstKind::TSInterfaceDeclaration(node) => Some(node.id.name),
        AstKind::TSTypeAliasDeclaration(node) => Some(node.id.name),
        AstKind::TSEnumDeclaration(node) => Some(node.id.name),
        AstKind::StaticMemberExpression(node) => Some(node.property.name),
        AstKind::TSQualifiedName(node) => Some(node.right.name),
        _ => None,
    };
    name.map(String::from)
}

/// The local name in a node: that of an import or export specifier, or the
/// identifier left of the dot of an access, where it is one.
#[verifier::external_body]
fn node_local(semantic: &Semantic, i: usize) -> (r: Option<String>)
    requires
        i < nodes_in(semantic).len(),
    ensures
        text_in(r) == nodes_in(semantic)[i as int].local,
{
    let name = match semantic.nodes().iter().nth(i).unwrap().kind() {
        AstKind::ImportSpecifier(node) => Some(node.local.name),
        AstKind::ImportDefaultSpecifier(node) => Some(node.local.name),
        AstKind::ImportNamespaceSpecifier(node) => Some(node.local.name),
        AstKind::ExportSpecifier(node) => Some(node.local.name()),
        AstKind::StaticMemberExpression(node) => match &node.object {
            Expression::Identifier(left) => Some(left.name), _ => None,
        },
        AstKind::TSQualifiedName(node) => match &node.left {
            TSTypeName::IdentifierReference(left) => Some(left.name), _ => None,
        },
        _ => None,
    };
    name.map(String::from)
}

/// The module that a node imports or exports from, where it names one by a
/// string literal.
#[verifier::external_body]
fn node_module(semantic: &Semantic, i: usize) -> (r: Option<String>)
    requires
        i < nodes_in(semantic).len(),
    ensures
        text_in(r) == nodes_in(semantic)[i as int].module,
{
    let module = match semantic.nodes().iter().nth(i).unwrap().kind() {
        AstKind::ImportDeclaration(node) => Some(node.source.value),
        AstKind::ExportAllDeclaration(node) => Some(node.source.value),
        AstKind::ExportNamedDeclaration(node) => node.source.as_ref().map(|source| source.value),
        AstKind::ImportExpression(node) => match &node.source {
            Expression::StringLiteral(source) => Some(source.value),
            _ => None,
        },
        _ => None,
    };
    module.map(String::from)
}

/// Whether an import declaration or specifier is for types alone
/// (`ImportOrExportKind::is_type`).
#[verifier::external_body]
fn node_is_type(semantic: &Semantic, i: usize) -> (r: bool)
    requires
        i < nodes_in(semantic).len(),
    ensures
        r == nodes_in(semantic)[i as int].is_type,
{
    match semantic.nodes().iter().nth(i).unwrap().kind() {
        AstKind::ImportDeclaration(node) => node.import_kind.is_type(),
        AstKind::ImportSpecifier(node) => node.import_kind.is_type(),
        _ => false,
    }
}

/// The names of a file's symbols (`Scoping::symbol_ids`, `Scoping::symbol_name`).
#[verifier::external_body]
fn symbol_names(semantic: &Semantic) -> (r: Vec<String>)
    ensures
        r@.len() == symbols_in(semantic).len(),
        forall|i: int|
            0 <= i < r@.len() ==> (#[trigger] r@[i])@ == symbols_in(semantic)[i].name,
{
    let scoping = semantic.scoping();
    scoping.symbol_ids().map(|id| scoping.symbol_name(id).to_string()).collect()
}

/// The start of each reference to each of a file's symbols
/// (`Semantic::symbol_references`, `Semantic::reference_span`).
#[verifier::external_body]
fn symbol_references(semantic: &Semantic) -> (r: Vec<Vec<usize>>)
    ensures
        r@.len() == symbols_in(semantic).len(),
        forall|i: int|
            0 <= i < r@.len() ==> (#[trigger] r@[i])@ == symbols_in(semantic)[i].references,
{
    let start = |reference| semantic.reference_span(reference).start as usize;
    let ids = semantic.scoping().symbol_ids();
    ids.map(|id| semantic.symbol_references(id).map(start).collect()).collect()
}

/// What a list of nodes stands for.
pub open spec fn node_views(nodes: Seq<SyntaxNode>) -> Seq<NodeView> {
    nodes.map_values(|node: SyntaxNode| node@)
}

/// What a list of symbols stands for.
pub open spec fn symbol_views(symbols: Seq<Symbol>) -> Seq<SymbolView> {
    symbols.map_values(|symbol: Symbol| symbol@)
}

/// The nodes of a tree.
fn read_nodes(semantic: &Semantic) -> (r: Vec<SyntaxNode>)
    ensures
        node_views(r@) == nodes_in(semantic),
{
    let count: usize = node_count(semantic);
    let mut r: Vec<SyntaxNode> = Vec::new();
    let mut i: usize = 0;
    while i < count
        invariant
            count == nodes_in(semantic).len(),
            i <= count,
            node_views(r@) == nodes_in(semantic).take(i as int),
        decreases count - i,
    {
        let (start, end, parent) = node_place(semantic, i);
        let kind: NodeKind = match module_kind(semantic, i) {
            Some(kind) => kind,
            None => match declaration_kind(semantic, i) {
                Some(kind) => kind,
                None => plain_kind(semantic, i),
            },
        };
        let node: SyntaxNode = SyntaxNode {
            start,
            end,
            parent,
            kind,
            name: node_name(semantic, i),
            local: node_local(semantic, i),
            module: node_module(semantic, i),
            is_type: node_is_type(semantic, i),
        };
        let ghost before = r@;
        r.push(node);
        proof {
            assert(node@ == nodes_in(semantic)[i as int]);
            assert(node_views(r@) =~= node_views(before).push(node@));
            assert(nodes_in(semantic).take(i + 1) =~= nodes_in(semantic).take(i as int).push(node@));
        }
        i = i + 1;
    }
    proof {
        assert(nodes_in(semantic).take(count as int) =~= nodes_in(semantic));
    }
    r
}

/// The symbols of a file.
fn read_symbols(semantic: &Semantic) -> (r: Vec<Symbol>)
    ensures
        symbol_views(r@) == symbols_in(semantic),
{
    let names: Vec<String> = symbol_names(semantic);
    let references: Vec<Vec<usize>> = symbol_references(semantic);
    let mut r: Vec<Symbol> = Vec::new();
    let mut i: usize = 0;
    while i < names.len()
        invariant
            names@.len() == symbols_in(semantic).len(),
            references@.len() == symbols_in(semantic).len(),
            forall|k: int|
                0 <= k < names@.len() ==> (#[trigger] names@[k])@ == symbols_in(semantic)[k].name,
            forall|k: int|
                0 <= k < references@.len() ==> (#[trigger] references@[k])@
                    == symbols_in(semantic)[k].references,
            i <= names@.len(),
            symbol_views(r@) == symbols_in(semantic).take(i as int),
        decreases names@.len() - i,
    {
        let starts: Vec<usize> = references[i].clone();
        proof {
            assert(starts@ =~= references@[i as int]@);
        }
        let symbol: Symbol = Symbol { name: names[i].clone(), references: starts };
        let ghost before = r@;
        r.push(symbol);
        proof {
            assert(symbol@ == symbols_in(semantic)[i as int]);
            assert(symbol_views(r@) =~= symbol_views(before).push(symbol@));
            assert(symbols_in(semantic).take(i + 1) =~= symbols_in(semantic).take(i as int).push(
                symbol@,
            ));
        }
        i = i + 1;
    }
    proof {
        assert(symbols_in(semantic).take(names@.len() as int) =~= symbols_in(semantic));
    }
    r
}

/// The nodes and symbols that oxc finds in a source text; the path decides on
/// the dialect.
pub fn parse(source: &str, path: &str) -> (r: (Vec<SyntaxNode>, Vec<Symbol>))
    ensures
        node_views(r.0@) == parsed_nodes(source@, path@),
        symbol_views(r.1@) == parsed_symbols(source@, path@),
{
    let allocator: Allocator = new_allocator();
    let semantic: Semantic = analyze(&allocator, source, path);
    (read_nodes(&semantic), read_symbols(&semantic))
}

} // verus!
