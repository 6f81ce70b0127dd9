//! How import specifiers are told apart and resolved.
use crate::paths::{components, components_of, join_path, joined_path};
use crate::semantic::exports_map::{
    alias_views, exports_aliases, package_exports_aliases, Alias, AliasView, JsonValue, Location,
};
use crate::text::{chars_of, occurs_at, same, texts};
use crate::types::{text_in, Project};
use vstd::prelude::*;

verus! {

/// Whether a specifier is a name, or a path below it.
pub open spec fn names_or_below(specifier: Seq<char>, name: Seq<char>) -> bool {
    specifier == name || name.push('/').is_prefix_of(specifier)
}

/// Whether a specifier is a relative or absolute path.
pub open spec fn is_path_specifier(specifier: Seq<char>) -> bool {
    specifier.len() > 0 && (specifier[0] == '.' || specifier[0] == '/')
}

/// Whether a specifier may lead into the workspace: it is a path, or names or
/// lies below a project or a tsconfig path.
pub open spec fn leads_into_workspace(
    specifier: Seq<char>,
    projects: Seq<Project>,
    tsconfig_paths: Seq<String>,
) -> bool {
    ||| is_path_specifier(specifier)
    ||| exists|i: int|
        0 <= i < projects.len() && names_or_below(specifier, (#[trigger] projects[i]).name@)
    ||| exists|i: int|
        0 <= i < tsconfig_paths.len() && names_or_below(specifier, (#[trigger] tsconfig_paths[i])@)
}

/// Whether a specifier is a name, or a path below it.
fn matches_prefix(specifier: &Vec<char>, name: &str) -> (r: bool)
    ensures
        r == names_or_below(specifier@, name@),
{
    let prefix: Vec<char> = chars_of(name);
    let found: bool = occurs_at(specifier, &prefix, 0);
    proof {
        let longer = name@.push('/');
        if found && specifier@.len() > prefix@.len() && specifier@[prefix@.len() as int] == '/' {
            assert(longer =~= specifier@.subrange(0, longer.len() as int)) by {
                assert forall|k: int| 0 <= k < name@.len() implies name@[k] == specifier@[k] by {
                    assert(specifier@.subrange(0, name@.len() as int)[k] == specifier@[k]);
                }
            }
        }
        if longer.is_prefix_of(specifier@) {
            assert(specifier@.subrange(0, longer.len() as int)[name@.len() as int]
                == specifier@[name@.len() as int]);
            assert(name@ =~= specifier@.subrange(0, name@.len() as int)) by {
                assert forall|k: int| 0 <= k < name@.len() implies name@[k] == specifier@[k] by {
                    assert(longer[k] == name@[k]);
                    assert(specifier@.subrange(0, longer.len() as int)[k] == specifier@[k]);
                }
            }
        }
        if found && specifier@.len() == prefix@.len() {
            assert(specifier@ =~= name@);
        }
        if specifier@ == name@ {
            assert(name@ =~= specifier@.subrange(0, name@.len() as int));
        }
    }
    found && (specifier.len() == prefix.len() || specifier[prefix.len()] == '/')
}

/// Returns `true` if the specifier is potentially workspace-internal and should be
/// passed to the resolver. Relative and absolute specifiers always qualify.
/// Bare specifiers qualify if they match a known project name **or** a tsconfig
/// path alias (possibly as a deep-import prefix like `@scope/pkg/sub/path`).
///
/// Both project names and tsconfig paths must be checked because they can differ:
/// an Nx project named `ui-widgets` may be imported as `@acme/shared-ui-widgets`
/// via a tsconfig path alias. Checking only project names would misclassify
/// such imports as external and silently break cross-project reference tracking.
pub fn is_workspace_specifier(
    specifier: &str,
    projects: &Vec<Project>,
    tsconfig_paths: &Vec<String>,
) -> (r: bool)
    ensures
        r == leads_into_workspace(specifier@, projects@, tsconfig_paths@),
{
    let chars: Vec<char> = chars_of(specifier);
    if chars.len() > 0 && (chars[0] == '.' || chars[0] == '/') {
        return true;
    }
    let mut i: usize = 0;
    while i < projects.len()
        invariant
            chars@ == specifier@,
            i <= projects@.len(),
            forall|k: int|
                0 <= k < i ==> !names_or_below(specifier@, (#[trigger] projects@[k]).name@),
        decreases projects@.len() - i,
    {
        if matches_prefix(&chars, projects[i].name.as_str()) {
            return true;
        }
        i = i + 1;
    }
    let mut j: usize = 0;
    while j < tsconfig_paths.len()
        invariant
            chars@ == specifier@,
            j <= tsconfig_paths@.len(),
            forall|k: int|
                0 <= k < j ==> !names_or_below(specifier@, (#[trigger] tsconfig_paths@[k])@),
        decreases tsconfig_paths@.len() - j,
    {
        if matches_prefix(&chars, tsconfig_paths[j].as_str()) {
            return true;
        }
        j = j + 1;
    }
    false
}

/// A project path as seen from the working directory.
fn absolute_project_path(cwd: &str, path: &str) -> (r: String)
    ensures
        r@ == joined_path(cwd@, path@),
{
    join_path(cwd, path)
}

/// Where the sources of a project lie: in `src` below its source root, where
/// there is such a directory and the source root is not itself one.
pub open spec fn source_target(cwd: Seq<char>, project: Project, has_src_dir: bool) -> Seq<char> {
    let base = joined_path(cwd, project.source_root@);
    if has_src_dir && !ends_with_src(base) {
        joined_path(base, "src"@)
    } else {
        base
    }
}

/// Whether the last component of a path is `src`.
pub open spec fn ends_with_src(path: Seq<char>) -> bool {
    components(path).len() > 0 && components(path).last() == "src"@
}

/// Where the sources of a project lie.
///
/// Prefer <project>/src when it exists (Rush-style project folders).
/// If source_root already ends in src/ (Nx-style), or there is no src/ subdir,
/// use source_root as-is.
pub fn project_source_alias_target(cwd: &str, project: &Project, has_src_dir: bool) -> (r: String)
    ensures
        r@ == source_target(cwd@, *project, has_src_dir),
{
    let base: String = absolute_project_path(cwd, project.source_root.as_str());
    let list: Vec<String> = components_of(base.as_str());
    proof {
        assert(texts(list@).len() == list@.len());
        if list@.len() > 0 {
            assert(texts(list@).last() == list@[list@.len() - 1]@);
        }
    }
    let ends: bool = list.len() > 0 && same(list[list.len() - 1].as_str(), "src");
    if has_src_dir && !ends {
        join_path(base.as_str(), "src")
    } else {
        base
    }
}

/// What is known of a project on disk.
#[derive(Debug)]
pub struct ProjectFacts {
    /// Whether there is a directory `src` below the source root.
    pub has_src_dir: bool,
    /// The `exports` of the package manifest, where it has some.
    pub exports: Option<JsonValue>,
    /// The directory of the sources, in canonical form.
    pub canonical_source: String,
    /// Where the targets of the exports lead.
    pub locations: Vec<Location>,
}

/// The aliases of a project: those of its exports, where they count, then the
/// project's name for its sources. Export aliases must precede the package
/// fallback: resolution stops after a matched alias whose target cannot be
/// resolved.
pub open spec fn project_aliases(
    cwd: Seq<char>,
    project: Project,
    facts: ProjectFacts,
    resolve_package_exports: bool,
) -> Seq<AliasView> {
    let own = AliasView {
        key: project.name@,
        target: source_target(cwd, project, facts.has_src_dir),
    };
    match facts.exports {
        Some(exports) => if resolve_package_exports {
            exports_aliases(
                project.name@,
                joined_path(cwd, project.root@),
                exports,
                facts.locations@,
                facts.canonical_source@,
            ).push(own)
        } else {
            seq![own]
        },
        None => seq![own],
    }
}

/// The aliases of the first `upto` projects.
pub open spec fn all_aliases(
    cwd: Seq<char>,
    projects: Seq<Project>,
    facts: Seq<ProjectFacts>,
    resolve_package_exports: bool,
    upto: nat,
) -> Seq<AliasView>
    decreases upto,
{
    if upto == 0 {
        Seq::empty()
    } else {
        all_aliases(cwd, projects, facts, resolve_package_exports, (upto - 1) as nat)
            + project_aliases(cwd, projects[upto - 1], facts[upto - 1], resolve_package_exports)
    }
}

/// Resolver configuration.
#[derive(Debug)]
pub struct ResolveOptions {
    pub extensions: Vec<String>,
    /// The extensions that are tried for a given one.
    pub extension_alias: Vec<(String, Vec<String>)>,
    pub alias: Vec<Alias>,
    pub condition_names: Vec<String>,
    pub main_fields: Vec<String>,
    pub main_files: Vec<String>,
    /// The tsconfig whose paths count, where there is one.
    pub tsconfig: Option<String>,
}

/// What a list of extension aliases stands for.
pub open spec fn extension_aliases(list: Seq<(String, Vec<String>)>) -> Seq<
    (Seq<char>, Seq<Seq<char>>),
> {
    list.map_values(|pair: (String, Vec<String>)| (pair.0@, texts(pair.1@)))
}

/// The aliases of a project.
fn find_project_aliases(
    cwd: &str,
    project: &Project,
    facts: &ProjectFacts,
    resolve_package_exports: bool,
) -> (r: Vec<Alias>)
    ensures
        alias_views(r@) == project_aliases(cwd@, *project, *facts, resolve_package_exports),
{
    let mut r: Vec<Alias> = Vec::new();
    proof {
        assert(alias_views(r@) =~= Seq::<AliasView>::empty());
    }
    if resolve_package_exports {
        if let Some(exports) = &facts.exports {
            let project_root: String = absolute_project_path(cwd, project.root.as_str());
            r = package_exports_aliases(
                project.name.as_str(),
                project_root.as_str(),
                exports,
                &facts.locations,
                facts.canonical_source.as_str(),
            );
        }
    }
    let ghost before = r@;
    let own: Alias = Alias {
        key: project.name.clone(),
        target: project_source_alias_target(cwd, project, facts.has_src_dir),
    };
    r.push(own);
    proof {
        assert(alias_views(r@) =~= alias_views(before).push(own@));
        assert(Seq::<AliasView>::empty().push(own@) =~= seq![own@]);
    }
    r
}

/// Shared resolver configuration for both the import index builder and the reference finder.
/// Kept in one place to prevent drift between the two resolution paths.
///
/// Builds aliases that keep workspace imports on source files. When
/// `resolve_package_exports` is enabled, source-target package exports are tried before
/// the existing package-to-src fallback.
///
/// The aliases prefer `<project>/src/` when it exists. This works well for the common
/// Rush-style layout but falls back to the project root for packages that use a
/// non-standard source directory (`lib/`, `source/`, etc.) or keep sources at the
/// project root without a subdirectory.
pub fn create_resolve_options(
    cwd: &str,
    projects: &Vec<Project>,
    facts: &Vec<ProjectFacts>,
    resolve_package_exports: bool,
    tsconfig_exists: bool,
) -> (r: ResolveOptions)
    requires
        facts@.len() == projects@.len(),
    ensures
        alias_views(r.alias@) == all_aliases(
            cwd@,
            projects@,
            facts@,
            resolve_package_exports,
            projects@.len(),
        ),
        texts(r.extensions@) == seq![".ts"@, ".tsx"@, ".js"@, ".jsx"@, ".d.ts"@],
        extension_aliases(r.extension_alias@) == seq![
            (".js"@, seq![".ts"@, ".tsx"@, ".js"@]),
            (".jsx"@, seq![".tsx"@, ".jsx"@]),
        ],
        texts(r.condition_names@) == seq!["import"@, "require"@, "types"@, "default"@],
        texts(r.main_fields@) == seq!["main"@, "module"@, "types"@],
        texts(r.main_files@) == seq!["index"@],
        text_in(r.tsconfig) == if tsconfig_exists {
            Some(joined_path(cwd@, "tsconfig.base.json"@))
        } else {
            None
        },
{
    let mut alias: Vec<Alias> = Vec::new();
    let mut i: usize = 0;
    proof {
        assert(alias_views(alias@) =~= Seq::<AliasView>::empty());
    }
    while i < projects.len()
        invariant
            facts@.len() == projects@.len(),
            i <= projects@.len(),
            alias_views(alias@) == all_aliases(
                cwd@,
                projects@,
                facts@,
                resolve_package_exports,
                i as nat,
            ),
        decreases projects@.len() - i,
    {
        let mut more: Vec<Alias> = find_project_aliases(
            cwd,
            &projects[i],
            &facts[i],
            resolve_package_exports,
        );
        let ghost before = alias@;
        let ghost added = more@;
        alias.append(&mut more);
        proof {
            assert(alias_views(alias@) =~= alias_views(before) + alias_views(added));
        }
        i = i + 1;
    }
    let extensions: Vec<String> = vec![
        ".ts".to_owned(),
        ".tsx".to_owned(),
        ".js".to_owned(),
        ".jsx".to_owned(),
        ".d.ts".to_owned(),
    ];
    // Handles the common ESM pattern where .ts files import with .js extensions
    // (e.g., import { foo } from './bar.js' where the actual file is bar.ts).
    let for_js: Vec<String> = vec![".ts".to_owned(), ".tsx".to_owned(), ".js".to_owned()];
    let for_jsx: Vec<String> = vec![".tsx".to_owned(), ".jsx".to_owned()];
    let condition_names: Vec<String> = vec![
        "import".to_owned(),
        "require".to_owned(),
        "types".to_owned(),
        "default".to_owned(),
    ];
    let main_fields: Vec<String> = vec![
        "main".to_owned(),
        "module".to_owned(),
        "types".to_owned(),
    ];
    let main_files: Vec<String> = vec!["index".to_owned()];
    proof {
        assert(texts(extensions@) =~= seq![".ts"@, ".tsx"@, ".js"@, ".jsx"@, ".d.ts"@]);
        assert(texts(for_js@) =~= seq![".ts"@, ".tsx"@, ".js"@]);
        assert(texts(for_jsx@) =~= seq![".tsx"@, ".jsx"@]);
        assert(texts(condition_names@) =~= seq!["import"@, "require"@, "types"@, "default"@]);
        assert(texts(main_fields@) =~= seq!["main"@, "module"@, "types"@]);
        assert(texts(main_files@) =~= seq!["index"@]);
    }
    let extension_alias: Vec<(String, Vec<String>)> = vec![
        (".js".to_owned(), for_js),
        (".jsx".to_owned(), for_jsx),
    ];
    proof {
        assert(extension_aliases(extension_alias@) =~= seq![
            (".js"@, seq![".ts"@, ".tsx"@, ".js"@]),
            (".jsx"@, seq![".tsx"@, ".jsx"@]),
        ]);
    }
    let tsconfig: Option<String> = if tsconfig_exists {
        Some(join_path(cwd, "tsconfig.base.json"))
    } else {
        None
    };
    ResolveOptions {
        extensions,
        extension_alias,
        alias,
        condition_names,
        main_fields,
        main_files,
        tsconfig,
    }
}

} // verus!
