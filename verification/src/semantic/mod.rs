//! What the source files of a workspace declare, import, export and refer to.
pub mod aliased;
pub mod analyzer;
pub mod exports_map;
pub mod extracted;
pub mod import_index;
pub mod lined;
pub mod listed;
pub mod module_graph;
pub mod naming;
pub mod ordered;
pub mod positions;
pub mod resolve_options;
pub mod resolved;
pub mod syntax;
pub mod tsconfig_paths;
pub mod walk;
