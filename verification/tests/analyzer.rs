use domino::error::DominoError;
use domino::semantic::analyzer::{parse_single_file, WorkspaceAnalyzer};
use domino::semantic::module_graph::{decimal_text, extract_exports, extract_imports};
use domino::semantic::syntax::{parse, NodeKind};
use domino::types::Project;

/// An analyzer that holds one parsed file.
fn create_analyzer_with_file(source: &str, file_name: &str) -> (WorkspaceAnalyzer, String) {
    let file = parse_single_file(source.to_string(), file_name, file_name.to_string());
    (WorkspaceAnalyzer::new(vec![], vec![], false).with_file(file), file_name.to_string())
}

#[test]
fn test_find_node_at_line_with_column_offset() {
    // Test that find_node_at_line uses column offset to find the correct container symbol
    // This test creates a simple TypeScript file and verifies that we can find
    // the correct variable declarator when given a precise column offset

    let source = r#"import { Component } from './component';

const MemoizedComponent = React.memo(Component);
const AnotherVar = 'test';

export { MemoizedComponent };"#;

    let (analyzer, file_path) = create_analyzer_with_file(source, "test.ts");

    // Line 3 contains: const MemoizedComponent = React.memo(Component);
    // Column 42 is approximately where "Component" appears in the memo call
    // We expect to find "MemoizedComponent" as the container
    let result = analyzer.find_node_at_line(&file_path, 3, 42);
    assert!(result.is_ok());
    let symbol = result.unwrap();
    assert_eq!(symbol, vec!["MemoizedComponent".to_string()]);

    // Test with column 0 (line start) - should find the VariableDeclaration container
    let result = analyzer.find_node_at_line(&file_path, 3, 0);
    assert!(result.is_ok());
    let symbol = result.unwrap();
    assert_eq!(symbol, vec!["MemoizedComponent".to_string()]);

    // Test line 4 with AnotherVar
    let result = analyzer.find_node_at_line(&file_path, 4, 10);
    assert!(result.is_ok());
    let symbol = result.unwrap();
    assert_eq!(symbol, vec!["AnotherVar".to_string()]);
}

#[test]
fn test_find_node_at_line_non_exported_const_column_zero() {
    // Non-exported `const` declarations must be identified
    // when find_node_at_line is called with column 0 (the `const` keyword).
    let source = r#"const basePattern = `some-pattern`
const combined = `prefix-${basePattern}-suffix`
export const MY_REGEX = new RegExp(combined)"#;

    let (analyzer, file_path) = create_analyzer_with_file(source, "test.ts");

    // Line 1: `const basePattern = ...` — column 0 is the `const` keyword
    let result = analyzer.find_node_at_line(&file_path, 1, 0);
    assert!(result.is_ok());
    assert_eq!(result.unwrap(), vec!["basePattern".to_string()]);

    // Line 2: `const combined = ...` — column 0
    let result = analyzer.find_node_at_line(&file_path, 2, 0);
    assert!(result.is_ok());
    assert_eq!(result.unwrap(), vec!["combined".to_string()]);

    // Line 3: `export const MY_REGEX = ...` — column 0 (export keyword)
    let result = analyzer.find_node_at_line(&file_path, 3, 0);
    assert!(result.is_ok());
    assert_eq!(result.unwrap(), vec!["MY_REGEX".to_string()]);
}

#[test]
fn test_find_node_at_line_non_exported_let_var_column_zero() {
    // The `let` and `var` declarations must also be identified at column 0,
    // not just `const`.
    let source = r#"let localLet = 1
var localVar = 2"#;

    let (analyzer, file_path) = create_analyzer_with_file(source, "test.ts");

    let result = analyzer.find_node_at_line(&file_path, 1, 0);
    assert!(result.is_ok());
    assert_eq!(result.unwrap(), vec!["localLet".to_string()]);

    let result = analyzer.find_node_at_line(&file_path, 2, 0);
    assert!(result.is_ok());
    assert_eq!(result.unwrap(), vec!["localVar".to_string()]);
}

#[test]
fn test_find_node_at_line_non_exported_destructuring_column_zero() {
    // Documents known limitation: destructuring patterns (e.g., `const { a, b } = obj`)
    // return empty because first_binding_name_from_var_decl only matches BindingIdentifier,
    // not ObjectPattern or ArrayPattern.
    let source = r#"const { a, b } = { a: 1, b: 2 }
const [x, y] = [1, 2]"#;

    let (analyzer, file_path) = create_analyzer_with_file(source, "test.ts");

    // Object destructuring at column 0 — returns empty (no simple BindingIdentifier)
    let result = analyzer.find_node_at_line(&file_path, 1, 0);
    assert!(result.is_ok());
    assert_eq!(result.unwrap(), Vec::<String>::new());

    // Array destructuring at column 0 — also returns empty
    let result = analyzer.find_node_at_line(&file_path, 2, 0);
    assert!(result.is_ok());
    assert_eq!(result.unwrap(), Vec::<String>::new());
}

#[test]
fn test_find_node_at_line_multiple_declarators_column_zero() {
    // `const a = 1, b = 2` at column 0 returns only the first declarator ("a").
    // This is by design: first_binding_name_from_var_decl returns the first
    // BindingIdentifier found.
    let source = "const a = 1, b = 2";

    let (analyzer, file_path) = create_analyzer_with_file(source, "test.ts");

    let result = analyzer.find_node_at_line(&file_path, 1, 0);
    assert!(result.is_ok());
    assert_eq!(result.unwrap(), vec!["a".to_string()]);
}

#[test]
fn test_find_node_smallest_containing_node() {
    // Test that find_node_at_line finds the smallest containing node
    // when multiple nodes overlap at the same position

    let source = r#"export function outer() {
  const inner = function() {
    return 'nested';
  };
  return inner;
}"#;

    let (analyzer, file_path) = create_analyzer_with_file(source, "test.ts");

    // Line 2 contains: const inner = function() {
    // When we query at the position of "inner", we should get "inner" not "outer"
    let result = analyzer.find_node_at_line(&file_path, 2, 10);
    assert!(result.is_ok());
    // Note: The exact result depends on how the AST is structured
    // The important thing is that we get a result and don't panic
    let symbol = result.unwrap();
    assert!(!symbol.is_empty());
}

#[test]
fn test_extract_dynamic_imports_basic() {
    // Test that dynamic imports are detected
    let source = r#"
import { staticImport } from './static';

const LazyComponent = React.lazy(() => import('./LazyComponent'));

async function loadModule() {
  const module = await import('./dynamic-module');
  return module;
}
"#;

    let imports = extract_imports(&parse(source, "test.tsx").0);

    // Should have 1 static import + 2 dynamic imports
    assert_eq!(imports.len(), 3);

    // Check static import
    assert!(imports
        .iter()
        .any(|imp| imp.from_module == "./static" && imp.imported_name == "staticImport"));

    // Check dynamic imports
    let dynamic_imports: Vec<_> = imports
        .iter()
        .filter(|imp| imp.from_module == "./LazyComponent" || imp.from_module == "./dynamic-module")
        .collect();
    assert_eq!(dynamic_imports.len(), 2);

    // Dynamic imports should be namespace imports
    for imp in dynamic_imports {
        assert_eq!(imp.imported_name, "*");
        assert!(!imp.is_type_only);
    }
}

#[test]
fn test_extract_dynamic_imports_with_then() {
    // Test dynamic imports with .then() pattern
    let source = r#"
const LazyComponent = React.lazy(
  async () => await import('@my-org/shared-lib').then(module => ({ default: module.MyComponent })),
);
"#;

    let imports = extract_imports(&parse(source, "App.tsx").0);

    // Should have 1 dynamic import
    assert_eq!(imports.len(), 1);

    // Check the dynamic import
    let imp = &imports[0];
    assert_eq!(imp.from_module, "@my-org/shared-lib");
    assert_eq!(imp.imported_name, "*"); // Namespace import
    assert!(!imp.is_type_only);
}

#[test]
fn test_extract_no_dynamic_imports() {
    // Test file with only static imports
    let source = r#"
import { Component } from './Component';
import * as Utils from './utils';
import type { Props } from './types';

export function MyComponent(props: Props) {
  return <Component {...props} />;
}
"#;

    let imports = extract_imports(&parse(source, "test.tsx").0);

    // Should have 3 static imports, no dynamic imports
    assert_eq!(imports.len(), 3);

    // None should have synthetic names
    assert!(!imports
        .iter()
        .any(|imp| imp.local_name.starts_with("__dynamic_import_")));
}

#[test]
fn test_extract_multiple_dynamic_imports() {
    // Test multiple dynamic imports in the same file
    let source = r#"
const Component1 = React.lazy(() => import('./Component1'));
const Component2 = React.lazy(() => import('./Component2'));
const Component3 = React.lazy(() => import('./Component3'));

async function loadAll() {
  await import('./module1');
  await import('./module2');
}
"#;

    let imports = extract_imports(&parse(source, "test.tsx").0);

    // Should have 5 dynamic imports
    assert_eq!(imports.len(), 5);

    // All should be namespace imports
    assert!(imports.iter().all(|imp| imp.imported_name == "*"));

    // Check that all modules are present
    let modules: Vec<_> = imports.iter().map(|imp| imp.from_module.as_str()).collect();
    assert!(modules.contains(&"./Component1"));
    assert!(modules.contains(&"./Component2"));
    assert!(modules.contains(&"./Component3"));
    assert!(modules.contains(&"./module1"));
    assert!(modules.contains(&"./module2"));
}

#[test]
fn test_extract_dynamic_imports_non_string_literal() {
    // Test that non-string-literal dynamic imports are properly skipped with a warning
    let source = r#"
// Template literal (not supported)
const moduleName = 'dynamic-module';
const module1 = await import(`./modules/${moduleName}`);

// Variable (not supported)
const specifier = './some-module';
const module2 = await import(specifier);

// String literal (supported)
const module3 = await import('./supported-module');
"#;

    let imports = extract_imports(&parse(source, "test.ts").0);

    // Should only have 1 import (the string literal one)
    // The template literal and variable imports should be skipped with warnings
    assert_eq!(imports.len(), 1);
    assert_eq!(imports[0].from_module, "./supported-module");
    assert_eq!(imports[0].imported_name, "*");
    assert!(imports[0].is_dynamic);
}

#[test]
fn test_dynamic_imports_are_marked() {
    // Test that dynamic imports have is_dynamic = true and static imports have is_dynamic = false
    let source = r#"
import { StaticImport } from './static';
import * as StaticNamespace from './static-namespace';

const DynamicImport = await import('./dynamic');
"#;

    let imports = extract_imports(&parse(source, "test.ts").0);

    // Should have 2 static + 1 dynamic = 3 imports
    assert_eq!(imports.len(), 3);

    // Check static imports
    let static_imports: Vec<_> = imports.iter().filter(|imp| !imp.is_dynamic).collect();
    assert_eq!(static_imports.len(), 2);
    assert!(static_imports
        .iter()
        .all(|imp| imp.from_module.starts_with("./static")));

    // Check dynamic import
    let dynamic_imports: Vec<_> = imports.iter().filter(|imp| imp.is_dynamic).collect();
    assert_eq!(dynamic_imports.len(), 1);
    assert_eq!(dynamic_imports[0].from_module, "./dynamic");
    assert_eq!(dynamic_imports[0].imported_name, "*");
}

#[test]
fn test_find_node_at_line_export_default_named() {
    // Test finding a named default export
    let source = r#"export default function myFunction() {
  return 'test';
}"#;

    let (analyzer, file_path) = create_analyzer_with_file(source, "test.ts");

    let result = analyzer.find_node_at_line(&file_path, 1, 0);
    assert!(result.is_ok(), "Should not error: {:?}", result);
    let symbol = result.unwrap();
    assert_eq!(
        symbol,
        vec!["default".to_string()],
        "Should find 'default' for export default"
    );
}

#[test]
fn test_find_node_at_line_export_default_anonymous() {
    // Test finding an anonymous default export
    let source = r#"export default function() {
  return 'anonymous';
}"#;

    let (analyzer, file_path) = create_analyzer_with_file(source, "test.ts");

    let result = analyzer.find_node_at_line(&file_path, 1, 0);
    assert!(result.is_ok(), "Should not error: {:?}", result);
    let symbol = result.unwrap();
    assert_eq!(
        symbol,
        vec!["default".to_string()],
        "Should find 'default' for anonymous export default"
    );
}

#[test]
fn test_find_node_at_line_destructured_export() {
    // Test finding destructured exports - should find the first identifier
    let source = r#"const obj = { a: 1, b: 2 };
export const { a, b } = obj;"#;

    let (analyzer, file_path) = create_analyzer_with_file(source, "test.ts");

    let result = analyzer.find_node_at_line(&file_path, 2, 0);
    // Note: For destructured exports, we currently don't extract individual binding identifiers
    // This is a known limitation - the helper returns None for destructuring patterns
    // In the future, we may want to handle this case specially
    assert!(result.is_ok(), "Should not error: {:?}", result);
}

#[test]
fn test_find_node_at_line_multiple_exports() {
    // Test file with multiple exports on different lines
    let source = r#"export const FIRST = 1;
export const SECOND = 2;
export function third() {
  return 3;
}"#;

    let (analyzer, file_path) = create_analyzer_with_file(source, "test.ts");

    // Test first export
    let result1 = analyzer.find_node_at_line(&file_path, 1, 0);
    assert!(result1.is_ok());
    assert_eq!(result1.unwrap(), vec!["FIRST".to_string()]);

    // Test second export
    let result2 = analyzer.find_node_at_line(&file_path, 2, 0);
    assert!(result2.is_ok());
    assert_eq!(result2.unwrap(), vec!["SECOND".to_string()]);

    // Test third export
    let result3 = analyzer.find_node_at_line(&file_path, 3, 0);
    assert!(result3.is_ok());
    assert_eq!(result3.unwrap(), vec!["third".to_string()]);
}

#[test]
fn test_find_namespace_member_access() {
    let source = r#"import * as ui from '@my-org/ui-components';
import * as utils from './utils';

const button = ui.Button;
const input = ui.Input;
const datePicker = ui.DatePicker;

const helper = utils.helper;
const notUi = someOther.DatePicker;

type Props = ui.ButtonProps;
"#;

    let (analyzer, file_path) = create_analyzer_with_file(source, "test.tsx");

    let refs = analyzer
        .find_namespace_member_access(&file_path, "ui", "DatePicker")
        .expect("Should not error");
    assert_eq!(
        refs.len(),
        1,
        "Should find exactly 1 reference to ui.DatePicker"
    );

    let refs = analyzer
        .find_namespace_member_access(&file_path, "ui", "Button")
        .expect("Should not error");
    assert_eq!(
        refs.len(),
        1,
        "Should find exactly 1 reference to ui.Button"
    );

    let refs = analyzer
        .find_namespace_member_access(&file_path, "ui", "Input")
        .expect("Should not error");
    assert_eq!(refs.len(), 1, "Should find exactly 1 reference to ui.Input");

    let refs = analyzer
        .find_namespace_member_access(&file_path, "utils", "helper")
        .expect("Should not error");
    assert_eq!(
        refs.len(),
        1,
        "Should find exactly 1 reference to utils.helper"
    );

    let refs = analyzer
        .find_namespace_member_access(&file_path, "ui", "NonExistent")
        .expect("Should not error");
    assert_eq!(refs.len(), 0, "Should find no references to ui.NonExistent");

    let refs = analyzer
        .find_namespace_member_access(&file_path, "utils", "DatePicker")
        .expect("Should not error");
    assert_eq!(
        refs.len(),
        0,
        "Should find no references to utils.DatePicker"
    );

    let refs = analyzer
        .find_namespace_member_access(&file_path, "someOther", "DatePicker")
        .expect("Should not error");
    assert_eq!(
        refs.len(),
        1,
        "Should find 1 reference to someOther.DatePicker"
    );

    let refs = analyzer
        .find_namespace_member_access(&file_path, "ui", "ButtonProps")
        .expect("Should not error");
    assert_eq!(
        refs.len(),
        1,
        "Should find 1 reference to ui.ButtonProps (type)"
    );
}

#[test]
fn test_find_node_at_line_reexport_specifier() {
    let source = "export { Foo } from './foo';\n";
    let (analyzer, file_path) = create_analyzer_with_file(source, "barrel.ts");

    // Line 1 is the re-export. Should return "Foo".
    let result = analyzer
        .find_node_at_line(&file_path, 1, 0)
        .expect("Should not error");
    assert_eq!(result, vec!["Foo".to_string()]);
}

#[test]
fn test_find_node_at_line_reexport_aliased() {
    let source = "export { Foo as Bar } from './foo';\n";
    let (analyzer, file_path) = create_analyzer_with_file(source, "barrel.ts");

    // Should return the exported name "Bar", not the local name "Foo".
    let result = analyzer
        .find_node_at_line(&file_path, 1, 0)
        .expect("Should not error");
    assert_eq!(result, vec!["Bar".to_string()]);
}

#[test]
fn test_find_node_at_line_reexport_multiple_specifiers() {
    let source = "export { Alpha, Beta, Gamma } from './module';\n";
    let (analyzer, file_path) = create_analyzer_with_file(source, "barrel.ts");

    // Should return all specifiers on the line.
    let result = analyzer
        .find_node_at_line(&file_path, 1, 0)
        .expect("Should not error");
    assert_eq!(
        result,
        vec!["Alpha".to_string(), "Beta".to_string(), "Gamma".to_string()]
    );
}

#[test]
fn test_find_node_at_line_reexport_wildcard() {
    let source = "export * from './foo';\n";
    let (analyzer, file_path) = create_analyzer_with_file(source, "barrel.ts");

    // Wildcard re-exports have no specifiers and no declaration.
    let result = analyzer
        .find_node_at_line(&file_path, 1, 0)
        .expect("Should not error");
    assert!(result.is_empty());
}

#[test]
fn test_find_node_at_line_inline_export_still_works() {
    // Inline exports like `export const X = ...`
    let source = "export const MyConst = 42;\n";
    let (analyzer, file_path) = create_analyzer_with_file(source, "test.ts");

    let result = analyzer
        .find_node_at_line(&file_path, 1, 0)
        .expect("Should not error");
    assert_eq!(result, vec!["MyConst".to_string()]);
}

#[test]
fn static_imports_keep_their_names() {
    let source = "import def, { a, b as c, type T } from './m';\nimport type * as ns from \"pkg\";\nimport './side';\nimport type { U } from './u';\n";
    let imports = extract_imports(&parse(source, "f.ts").0);
    let seen: Vec<(&str, &str, &str, bool)> = imports
        .iter()
        .map(|i| {
            (
                i.imported_name.as_str(),
                i.local_name.as_str(),
                i.from_module.as_str(),
                i.is_type_only,
            )
        })
        .collect();
    assert_eq!(
        seen,
        vec![
            ("default", "def", "./m", false),
            ("a", "a", "./m", false),
            ("b", "c", "./m", false),
            ("T", "T", "./m", true),
            ("*", "ns", "pkg", true),
            ("U", "U", "./u", true),
        ]
    );
    assert!(imports.iter().all(|i| i.resolved_file.is_none() && !i.is_dynamic));
}

#[test]
fn dynamic_imports_come_last_and_are_counted() {
    let source = "const a = import('./a');\nimport { b } from './b';\nconst c = () => import('./c');\n";
    let imports = extract_imports(&parse(source, "f.js").0);
    let seen: Vec<(&str, &str, bool)> = imports
        .iter()
        .map(|i| (i.local_name.as_str(), i.from_module.as_str(), i.is_dynamic))
        .collect();
    assert_eq!(
        seen,
        vec![
            ("b", "./b", false),
            ("__dynamic_import_0", "./a", true),
            ("__dynamic_import_1", "./c", true),
        ]
    );
}

#[test]
fn numbers_are_written_in_decimal() {
    assert_eq!(decimal_text(0), "0");
    assert_eq!(decimal_text(10), "10");
    assert_eq!(decimal_text(1907), "1907");
    assert_eq!(decimal_text(usize::MAX), format!("{}", usize::MAX));
}

#[test]
fn exports_are_listed_in_order() {
    let source = "export { a, b as c };\nexport { d as e } from './d';\nexport * from './all';\nexport const x = 1, { y } = o, z = 2;\nexport function f() {}\nexport class K {}\nexport interface I {}\nexport default class {}\nconst a = 1, b = 2, o = { y: 1 };\n";
    let exports = extract_exports(&parse(source, "f.ts").0);
    let seen: Vec<(&str, Option<&str>, Option<&str>)> = exports
        .iter()
        .map(|e| {
            (e.exported_name.as_str(), e.local_name.as_deref(), e.re_export_from.as_deref())
        })
        .collect();
    assert_eq!(
        seen,
        vec![
            ("a", Some("a"), None),
            ("c", Some("b"), None),
            ("e", Some("d"), Some("./d")),
            ("*", None, Some("./all")),
            ("x", None, None),
            ("z", None, None),
            ("f", None, None),
            ("K", None, None),
            ("default", None, None),
        ]
    );
}

#[test]
fn exported_symbols_are_known_by_either_name() {
    let source = "const inner = 1;\nexport { inner as outer };\nexport { far as near } from './m';\n";
    let (analyzer, path) = create_analyzer_with_file(source, "f.ts");
    assert!(analyzer.is_symbol_exported(&path, "inner"));
    assert!(analyzer.is_symbol_exported(&path, "outer"));
    assert!(analyzer.is_symbol_exported(&path, "far"));
    assert!(!analyzer.is_symbol_exported(&path, "other"));
    assert!(!analyzer.is_symbol_exported("g.ts", "inner"));
}

#[test]
fn nodes_carry_their_kinds_and_places() {
    let (nodes, symbols) = parse("type A = B.C;\nenum E {}\nnamespace N {}\nlet v = w.p;\n", "f.ts");
    assert_eq!(nodes[0].kind, NodeKind::Program);
    assert_eq!((nodes[0].start, nodes[0].parent), (0, 0));
    assert!(nodes.iter().all(|n| n.parent < nodes.len() && n.start <= n.end));
    let of = |kind: NodeKind| nodes.iter().find(|n| n.kind == kind).unwrap();
    assert_eq!(of(NodeKind::TypeAlias).name.as_deref(), Some("A"));
    let access = of(NodeKind::QualifiedName);
    assert_eq!((access.local.as_deref(), access.name.as_deref()), (Some("B"), Some("C")));
    assert_eq!(of(NodeKind::Enum).name.as_deref(), Some("E"));
    assert_eq!(of(NodeKind::Namespace).name, None);
    let member = of(NodeKind::StaticMember);
    assert_eq!((member.local.as_deref(), member.name.as_deref()), (Some("w"), Some("p")));
    assert_eq!((member.start, member.end), (47, 50));
    assert_eq!(of(NodeKind::VariableDeclarator).name.as_deref(), Some("v"));
    assert!(symbols.iter().any(|s| s.name == "v" && s.references.is_empty()));
}

#[test]
fn every_declaration_and_module_node_has_its_kind() {
    let source = "import d, { a } from 'm';\nimport * as n from 'm';\nimport e = require('e');\nexport { a };\nexport * from 'm';\nexport default a;\ndeclare global {}\nfunction f() {}\nclass K {}\ninterface I {}\nconst l = () => import('m');\n";
    let nodes = parse(source, "f.ts").0;
    for kind in [
        NodeKind::ImportDeclaration,
        NodeKind::ImportSpecifier,
        NodeKind::ImportDefaultSpecifier,
        NodeKind::ImportNamespaceSpecifier,
        NodeKind::ImportExpression,
        NodeKind::ExportNamedDeclaration,
        NodeKind::ExportSpecifier,
        NodeKind::ExportDefaultDeclaration,
        NodeKind::ExportAllDeclaration,
        NodeKind::VariableDeclaration,
        NodeKind::VariableDeclarator,
        NodeKind::Function,
        NodeKind::Class,
        NodeKind::Interface,
        NodeKind::Global,
        NodeKind::ImportEquals,
        NodeKind::Other,
    ] {
        assert!(nodes.iter().any(|node| node.kind == kind), "no node of kind {:?}", kind);
    }
}

#[test]
fn the_path_decides_on_the_dialect() {
    // Type annotations are no JavaScript, and elements are no plain TypeScript.
    let named = |source: &str, path: &str| {
        let (analyzer, path) = create_analyzer_with_file(source, path);
        analyzer.find_node_at_line(&path, 1, 10).unwrap()
    };
    assert_eq!(named("interface I { a: string }", "f.ts").len(), 1);
    assert!(named("interface I { a: string }", "f.js").is_empty());
    // An unknown extension is taken for TypeScript.
    assert_eq!(named("interface I { a: string }", "f.unknown").len(), 1);
}

#[test]
fn local_references_give_line_and_column() {
    let source = "const a = 1;\nfunction f() { return a + a; }\nconst b = { a: 2 };\n";
    let (analyzer, path) = create_analyzer_with_file(source, "f.ts");
    let references = analyzer.find_local_references(&path, "a").unwrap();
    let places: Vec<(&str, usize, usize)> =
        references.iter().map(|r| (r.file_path.as_str(), r.line, r.column)).collect();
    assert_eq!(places, vec![("f.ts", 2, 22), ("f.ts", 2, 26)]);
    assert!(analyzer.find_local_references(&path, "b").unwrap().is_empty());
    let refs = analyzer.find_namespace_member_access(&path, "f", "a").unwrap();
    assert!(refs.is_empty());
}

#[test]
fn unknown_files_are_reported() {
    let (analyzer, _) = create_analyzer_with_file("const a = 1;", "f.ts");
    assert!(matches!(
        analyzer.find_local_references("g.ts", "a"),
        Err(DominoError::FileNotFound(path)) if path == "g.ts"
    ));
    assert!(matches!(
        analyzer.find_namespace_member_access("g.ts", "a", "b"),
        Err(DominoError::FileNotFound(path)) if path == "g.ts"
    ));
    assert!(matches!(
        analyzer.find_node_at_line("g.ts", 1, 0),
        Err(DominoError::FileNotFound(path)) if path == "g.ts"
    ));
    assert!(analyzer.find_exported_symbols_using("g.ts", "a").is_empty());
}

#[test]
fn exports_that_use_a_symbol_are_found() {
    let source = "const base = 1;\nexport const one = base + 1;\nfunction two() { return base; }\nexport { two as deux };\nexport const three = 3;\nexport { base };\nexport * from './m';\n";
    let (analyzer, path) = create_analyzer_with_file(source, "f.ts");
    assert_eq!(analyzer.find_exported_symbols_using(&path, "base"), vec!["one", "deux"]);
    assert!(analyzer.find_exported_symbols_using(&path, "three").is_empty());
}

#[test]
fn a_file_of_the_same_path_is_replaced() {
    let first = parse_single_file("export const a = 1;".to_string(), "f.ts", "lib/f.ts".to_string());
    let other = parse_single_file("export const o = 1;".to_string(), "o.ts", "lib/o.ts".to_string());
    let second = parse_single_file("export const b = 1;".to_string(), "f.ts", "lib//f.ts".to_string());
    let analyzer =
        WorkspaceAnalyzer::new(vec![], vec![], false).analyze_workspace(vec![first, other, second]);
    assert_eq!(analyzer.file_count(), 2);
    assert_eq!(analyzer.number_of_file("lib/f.ts"), Some(0));
    assert_eq!(analyzer.number_of_file("lib/./o.ts"), Some(1));
    assert_eq!(analyzer.number_of_file("f.ts"), None);
    assert!(analyzer.is_symbol_exported("lib/f.ts", "b"));
    assert!(!analyzer.is_symbol_exported("lib/f.ts", "a"));
    assert_eq!(analyzer.file(1).exports.len(), 1);
}

#[test]
fn lines_beyond_the_text_hold_nothing() {
    let (analyzer, path) = create_analyzer_with_file("const a = 1;\n", "f.ts");
    assert!(analyzer.find_node_at_line(&path, 1, usize::MAX).unwrap().is_empty());
    assert!(analyzer.find_node_at_line(&path, usize::MAX, 0).unwrap().is_empty());
    assert_eq!(analyzer.find_node_at_line(&path, 1, 0).unwrap(), vec!["a"]);
}

#[test]
fn the_declaration_around_a_place_is_named() {
    let source = "function outer() {\n  const inner = { key: 1 };\n}\nclass K {\n  m() {}\n}\ninterface I { x: string }\ntype T = { y: number };\nenum E { A }\nimport { q } from './q';\nexport { q,\n  K };\n";
    let (analyzer, path) = create_analyzer_with_file(source, "f.ts");
    let at = |line: usize, column: usize| analyzer.find_node_at_line(&path, line, column).unwrap();
    assert_eq!(at(2, 17), vec!["outer"]);
    assert_eq!(at(5, 2), vec!["K"]);
    assert_eq!(at(7, 14), vec!["I"]);
    assert_eq!(at(8, 11), vec!["T"]);
    assert_eq!(at(9, 9), vec!["E"]);
    assert!(at(10, 0).is_empty());
    // Only the specifiers on the line count.
    assert_eq!(at(11, 9), vec!["q"]);
    assert_eq!(at(12, 2), vec!["K"]);
}

#[test]
fn the_end_of_a_node_counts_as_inside() {
    let (analyzer, path) = create_analyzer_with_file("class A{}class B{}", "touching.ts");
    assert_eq!(analyzer.find_node_at_line(&path, 1, 9).unwrap(), vec!["A"]);
    let (analyzer, path) = create_analyzer_with_file("export function f() {}", "end.ts");
    assert_eq!(analyzer.find_node_at_line(&path, 1, 22).unwrap(), vec!["f"]);
}

#[test]
fn a_reference_belongs_to_what_holds_its_first_character() {
    let (analyzer, path) = create_analyzer_with_file(
        "const abc = () => 1;\nexport function f() {}abc();\nexport const g = abc;\n",
        "reference.ts",
    );
    assert_eq!(analyzer.find_exported_symbols_using(&path, "abc"), vec!["g"]);
}

#[test]
fn lines_that_end_with_carriage_returns_are_found() {
    let (analyzer, path) = create_analyzer_with_file(
        "export const a = 1;\r\nexport const b = 2;\r\nexport const c = 3;\r\n",
        "crlf.ts",
    );
    for (line, name) in [(1, "a"), (2, "b"), (3, "c")] {
        let found = analyzer.find_node_at_line(&path, line, 0).unwrap();
        assert_eq!(found, vec![name]);
    }
}

#[test]
fn a_workspace_keeps_what_it_was_made_with() {
    let lib = Project {
        name: "lib".to_string(),
        root: "libs/lib".to_string(),
        source_root: "libs/lib/src".to_string(),
        ts_config: None,
        implicit_dependencies: vec![],
        targets: vec![],
    };
    let analyzer = WorkspaceAnalyzer::new(vec![lib], vec!["@scope/".to_string()], true)
        .analyze_workspace(vec![]);
    assert_eq!(analyzer.projects().len(), 1);
    assert_eq!(analyzer.projects()[0].name, "lib");
    assert_eq!(analyzer.tsconfig_path_prefixes(), &vec!["@scope/".to_string()]);
    assert!(analyzer.resolve_package_exports());
    assert!(!WorkspaceAnalyzer::new(vec![], vec![], false).resolve_package_exports());
}
