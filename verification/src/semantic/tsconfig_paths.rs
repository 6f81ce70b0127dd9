//! The path aliases of a tsconfig and of those that it extends.
use crate::fx::{insert_name, names_in, no_names};
use crate::paths::{
    join_path, joined_path, json_path, normal, normalize, parent_of, parent_path,
    with_json_extension,
};
use crate::text::{same, strip_suffix, texts, without_suffix};
use json_strip_comments::StripComments;
use rustc_hash::FxHashSet;
use std::io::Read;
use vstd::prelude::*;

verus! {

/// The text that is left of a JSON text without its comments, where they all
/// end.
pub uninterp spec fn without_comments(text: Seq<char>) -> Option<Seq<char>>;

/// `StripComments`, read byte by byte: comments become spaces. None where a
/// comment or a string does not end, or what is left is not UTF-8.
#[verifier::external_body]
fn strip_comments(text: &str) -> (r: Option<String>)
    ensures
        match r {
            Some(stripped) => without_comments(text@) == Some(stripped@),
            None => without_comments(text@) is None,
        },
{
    let bytes: std::io::Result<Vec<u8>> = StripComments::new(text.as_bytes()).bytes().collect();
    String::from_utf8(bytes.ok()?).ok()
}

/// The JSON text of a tsconfig file, which may hold comments.
pub fn tsconfig_json(content: &str) -> (r: Option<String>)
    ensures
        match r {
            Some(stripped) => without_comments(content@) == Some(stripped@),
            None => without_comments(content@) is None,
        },
{
    strip_comments(content)
}

/// TypeScript 5.0+ allows `extends` to be either a single string or an array of strings.
#[derive(Debug, Clone, PartialEq, Eq)]
pub enum TsconfigExtends {
    Single(String),
    Multiple(Vec<String>),
}

/// What a tsconfig extends.
pub open spec fn extended(extends: TsconfigExtends) -> Seq<Seq<char>> {
    match extends {
        TsconfigExtends::Single(specifier) => seq![specifier@],
        TsconfigExtends::Multiple(specifiers) => texts(specifiers@),
    }
}

impl TsconfigExtends {
    /// What the tsconfig extends, one behind the other.
    pub fn into_vec(self) -> (r: Vec<String>)
        ensures
            texts(r@) == extended(self),
    {
        match self {
            TsconfigExtends::Single(specifier) => {
                let mut r: Vec<String> = Vec::new();
                r.push(specifier);
                proof {
                    assert(texts(r@) =~= seq![specifier@]);
                }
                r
            },
            TsconfigExtends::Multiple(specifiers) => specifiers,
        }
    }
}

/// A path alias: a key and what it stands for.
#[derive(Debug, Clone, PartialEq, Eq)]
pub struct PathAlias {
    pub key: String,
    pub targets: Vec<String>,
}

/// What a [`PathAlias`] stands for.
#[verifier::ext_equal]
pub struct PathAliasView {
    pub key: Seq<char>,
    pub targets: Seq<Seq<char>>,
}

impl View for PathAlias {
    type V = PathAliasView;

    open spec fn view(&self) -> PathAliasView {
        PathAliasView { key: self.key@, targets: texts(self.targets@) }
    }
}

/// What a list of path aliases stands for.
pub open spec fn path_alias_views(paths: Seq<PathAlias>) -> Seq<PathAliasView> {
    paths.map_values(|path: PathAlias| path@)
}

/// What is needed of a tsconfig: what it extends, and its path aliases.
#[derive(Debug, Clone, PartialEq, Eq)]
pub struct TsconfigJson {
    pub extends: Vec<String>,
    pub paths: Vec<PathAlias>,
}

/// A tsconfig file: its path as it was looked for, in canonical form, and what
/// could be read of it.
#[derive(Debug, Clone, PartialEq, Eq)]
pub struct TsconfigFile {
    pub path: String,
    pub canonical: String,
    pub config: Option<TsconfigJson>,
}

/// The number of the first file, from `from` on, with a path.
pub open spec fn config_at(files: Seq<TsconfigFile>, path: Seq<char>, from: int) -> Option<int>
    decreases files.len() - from,
{
    if from >= files.len() {
        None
    } else if files[from].path@ == path {
        Some(from)
    } else {
        config_at(files, path, from + 1)
    }
}

/// The file that a specifier of `extends` leads to, seen from a directory; none
/// for a package, which only module resolution could find.
pub open spec fn extended_path(parent_dir: Seq<char>, specifier: Seq<char>) -> Option<Seq<char>> {
    if specifier.len() > 0 && (specifier[0] == '.' || specifier[0] == '/') {
        Some(json_path(joined_path(parent_dir, specifier)))
    } else {
        None
    }
}

/// The file that a specifier of `extends` leads to.
pub fn resolve_extends_specifier(parent_dir: &str, specifier: &str) -> (r: Option<String>)
    ensures
        match r {
            Some(path) => extended_path(parent_dir@, specifier@) == Some(path@),
            None => extended_path(parent_dir@, specifier@) is None,
        },
{
    let chars: Vec<char> = crate::text::chars_of(specifier);
    if chars.len() > 0 && (chars[0] == '.' || chars[0] == '/') {
        let path: String = join_path(parent_dir, specifier);
        Some(with_json_extension(path.as_str()))
    } else {
        None
    }
}

/// The directory that a file's specifiers are seen from.
pub open spec fn config_dir(path: Seq<char>) -> Seq<char> {
    match parent_path(path) {
        Some(parent) => parent,
        None => "."@,
    }
}

/// The aliases with one alias more, in place of an earlier one of its key.
pub open spec fn with_path(paths: Seq<PathAliasView>, path: PathAliasView) -> Seq<PathAliasView>
    decreases paths.len(),
{
    if paths.len() == 0 {
        seq![path]
    } else if paths[0].key == path.key {
        seq![path] + paths.skip(1)
    } else {
        seq![paths[0]] + with_path(paths.skip(1), path)
    }
}

/// The aliases with the first `upto` of other aliases more.
pub open spec fn with_paths(
    paths: Seq<PathAliasView>,
    more: Seq<PathAliasView>,
    upto: nat,
) -> Seq<PathAliasView>
    decreases upto,
{
    if upto == 0 {
        paths
    } else {
        with_path(with_paths(paths, more, (upto - 1) as nat), more[upto - 1])
    }
}

/// How deep a chain of `extends` is followed.
pub const MAX_EXTENDS_DEPTH: usize = 64;

/// What was collected of path aliases, and from which files.
#[verifier::ext_equal]
pub struct Collected {
    /// The canonical paths of the files.
    pub visited: Set<Seq<char>>,
    pub paths: Seq<PathAliasView>,
}

/// What is collected of a file and of those that it extends: parents come first,
/// so that a file's own aliases take the place of theirs. A file counts once,
/// and only down to a depth.
pub open spec fn collected(
    files: Seq<TsconfigFile>,
    path: Seq<char>,
    before: Collected,
    depth: nat,
) -> Collected
    decreases MAX_EXTENDS_DEPTH as nat - depth, 1nat, 0nat,
{
    match config_at(files, path, 0) {
        Some(i) => {
            let canonical = normal(files[i].canonical@);
            if depth >= MAX_EXTENDS_DEPTH || before.visited.contains(canonical) {
                before
            } else {
                let entered = Collected { visited: before.visited.insert(canonical), ..before };
                match files[i].config {
                    Some(config) => {
                        let parents = collected_parents(
                            files,
                            config_dir(path),
                            texts(config.extends@),
                            entered,
                            depth,
                            config.extends@.len(),
                        );
                        Collected {
                            paths: with_paths(
                                parents.paths,
                                path_alias_views(config.paths@),
                                config.paths@.len(),
                            ),
                            ..parents
                        }
                    },
                    None => entered,
                }
            }
        },
        None => before,
    }
}

/// What is collected of the first `upto` files that a file extends.
pub open spec fn collected_parents(
    files: Seq<TsconfigFile>,
    dir: Seq<char>,
    specifiers: Seq<Seq<char>>,
    before: Collected,
    depth: nat,
    upto: nat,
) -> Collected
    decreases MAX_EXTENDS_DEPTH as nat - depth, 0nat, upto,
{
    if upto == 0 || depth >= MAX_EXTENDS_DEPTH {
        before
    } else {
        let earlier = collected_parents(
            files,
            dir,
            specifiers,
            before,
            depth,
            (upto - 1) as nat,
        );
        match extended_path(dir, specifiers[upto - 1]) {
            Some(path) => collected(files, path, earlier, depth + 1),
            None => earlier,
        }
    }
}

/// A path alias keeps its place.
proof fn lemma_with_path_at(paths: Seq<PathAliasView>, path: PathAliasView, at: int)
    requires
        0 <= at <= paths.len(),
        forall|k: int| 0 <= k < at ==> (#[trigger] paths[k]).key != path.key,
        at < paths.len() ==> paths[at].key == path.key,
    ensures
        with_path(paths, path) == if at < paths.len() {
            paths.update(at, path)
        } else {
            paths.push(path)
        },
    decreases at,
{
    let expected = if at < paths.len() {
        paths.update(at, path)
    } else {
        paths.push(path)
    };
    if at == 0 {
        assert(with_path(paths, path) =~= expected);
    } else {
        let rest = paths.skip(1);
        assert(paths[0].key != path.key);
        assert forall|k: int| 0 <= k < at - 1 implies (#[trigger] rest[k]).key != path.key by {
            assert(rest[k] == paths[k + 1]);
        }
        lemma_with_path_at(rest, path, at - 1);
        assert(with_path(paths, path) =~= expected);
    }
}

/// A copy of a path alias.
fn copy_alias(path: &PathAlias) -> (r: PathAlias)
    ensures
        r@ == path@,
{
    let mut targets: Vec<String> = Vec::new();
    let ghost all = texts(path.targets@);
    let mut i: usize = 0;
    proof {
        assert(texts(targets@) =~= all.take(0));
    }
    while i < path.targets.len()
        invariant
            all == texts(path.targets@),
            i <= path.targets@.len(),
            texts(targets@) == all.take(i as int),
        decreases path.targets@.len() - i,
    {
        let ghost before = targets@;
        targets.push(path.targets[i].clone());
        proof {
            assert(texts(targets@) =~= texts(before).push(path.targets@[i as int]@));
            assert(all.take(i + 1) =~= all.take(i as int).push(path.targets@[i as int]@));
        }
        i = i + 1;
    }
    proof {
        assert(all.take(all.len() as int) =~= all);
    }
    PathAlias { key: path.key.clone(), targets }
}

/// Adds a path alias, in place of an earlier one of its key.
fn put_path(paths: &mut Vec<PathAlias>, path: PathAlias)
    ensures
        path_alias_views(final(paths)@) == with_path(path_alias_views(old(paths)@), path@),
{
    let ghost views = path_alias_views(paths@);
    let mut i: usize = 0;
    while i < paths.len() && !same(paths[i].key.as_str(), path.key.as_str())
        invariant
            views == path_alias_views(paths@),
            i <= paths@.len(),
            forall|k: int| 0 <= k < i ==> (#[trigger] views[k]).key != path@.key,
        decreases paths@.len() - i,
    {
        proof {
            assert(views[i as int] == paths@[i as int]@);
        }
        i = i + 1;
    }
    proof {
        assert(views.len() == paths@.len());
        if i < paths@.len() {
            assert(views[i as int] == paths@[i as int]@);
        }
        lemma_with_path_at(views, path@, i as int);
    }
    if i < paths.len() {
        paths.set(i, path);
        proof {
            assert(path_alias_views(paths@) =~= views.update(i as int, path@));
        }
    } else {
        paths.push(path);
        proof {
            assert(path_alias_views(paths@) =~= views.push(path@));
        }
    }
}

/// Adds path aliases, each in place of an earlier one of its key.
fn put_paths(paths: &mut Vec<PathAlias>, more: &Vec<PathAlias>)
    ensures
        path_alias_views(final(paths)@) == with_paths(
            path_alias_views(old(paths)@),
            path_alias_views(more@),
            more@.len(),
        ),
{
    let ghost before = path_alias_views(paths@);
    let ghost views = path_alias_views(more@);
    let mut i: usize = 0;
    while i < more.len()
        invariant
            views == path_alias_views(more@),
            i <= more@.len(),
            path_alias_views(paths@) == with_paths(before, views, i as nat),
        decreases more@.len() - i,
    {
        proof {
            assert(views[i as int] == more@[i as int]@);
        }
        put_path(paths, copy_alias(&more[i]));
        i = i + 1;
    }
}

/// The file with a path.
fn find_config<'a>(files: &'a Vec<TsconfigFile>, path: &str) -> (r: Option<&'a TsconfigFile>)
    ensures
        match r {
            Some(file) => config_at(files@, path@, 0) matches Some(i) && 0 <= i < files@.len()
                && *file == files@[i],
            None => config_at(files@, path@, 0) is None,
        },
{
    let mut i: usize = 0;
    while i < files.len()
        invariant
            i <= files@.len(),
            config_at(files@, path@, 0) == config_at(files@, path@, i as int),
        decreases files@.len() - i,
    {
        if same(files[i].path.as_str(), path) {
            return Some(&files[i]);
        }
        i = i + 1;
    }
    None
}

/// Collects the path aliases of a file and of those that it extends.
fn collect_tsconfig_paths_recursive(
    files: &Vec<TsconfigFile>,
    config_path: &str,
    visited: &mut FxHashSet<String>,
    merged: &mut Vec<PathAlias>,
    depth: usize,
)
    ensures
        ({
            let after = collected(
                files@,
                config_path@,
                Collected {
                    visited: names_in(old(visited)),
                    paths: path_alias_views(old(merged)@),
                },
                depth as nat,
            );
            names_in(final(visited)) == after.visited && path_alias_views(final(merged)@)
                == after.paths
        }),
    decreases MAX_EXTENDS_DEPTH - depth,
{
    let ghost before = Collected {
        visited: names_in(visited),
        paths: path_alias_views(merged@),
    };
    let file: &TsconfigFile = match find_config(files, config_path) {
        Some(file) => file,
        None => {
            return;
        },
    };
    if depth >= MAX_EXTENDS_DEPTH {
        return;
    }
    let canonical: String = normalize(file.canonical.as_str());
    let ghost name = canonical@;
    if !insert_name(visited, canonical) {
        proof {
            assert(names_in(visited) =~= before.visited);
        }
        return;
    }
    let ghost entered = Collected { visited: before.visited.insert(name), ..before };
    let config: &TsconfigJson = match &file.config {
        Some(config) => config,
        None => {
            return;
        },
    };
    let parent_dir: String = match parent_of(config_path) {
        Some(parent) => parent,
        None => ".".to_owned(),
    };
    let ghost specifiers = texts(config.extends@);
    let mut i: usize = 0;
    while i < config.extends.len()
        invariant
            depth < MAX_EXTENDS_DEPTH,
            specifiers == texts(config.extends@),
            parent_dir@ == config_dir(config_path@),
            i <= config.extends@.len(),
            (Collected { visited: names_in(visited), paths: path_alias_views(merged@) })
                == collected_parents(
                files@,
                parent_dir@,
                specifiers,
                entered,
                depth as nat,
                i as nat,
            ),
        decreases config.extends@.len() - i,
    {
        proof {
            assert(specifiers[i as int] == config.extends@[i as int]@);
        }
        if let Some(parent_path) = resolve_extends_specifier(
            parent_dir.as_str(),
            config.extends[i].as_str(),
        ) {
            collect_tsconfig_paths_recursive(
                files,
                parent_path.as_str(),
                visited,
                merged,
                depth + 1,
            );
        }
        i = i + 1;
    }
    put_paths(merged, &config.paths);
}

/// Nothing collected yet.
pub open spec fn nothing_collected() -> Collected {
    Collected { visited: Set::empty(), paths: Seq::empty() }
}

/// Walk the `extends` chain starting from `start_path`, collecting all
/// `compilerOptions.paths` entries. Child paths take precedence over parent
/// paths (matching TypeScript semantics).
///
/// Supports both single-string and array `extends` (TypeScript 5.0+).
/// Bare package specifiers (e.g. `@my-team/tsconfig-base`) are skipped because
/// resolving them would require full Node module resolution; only relative/absolute
/// paths are followed.
pub fn collect_tsconfig_paths(files: &Vec<TsconfigFile>, start_path: &str) -> (r: Vec<PathAlias>)
    ensures
        path_alias_views(r@) == collected(files@, start_path@, nothing_collected(), 0).paths,
{
    let mut visited: FxHashSet<String> = no_names();
    let mut merged: Vec<PathAlias> = Vec::new();
    proof {
        assert(path_alias_views(merged@) =~= Seq::<PathAliasView>::empty());
    }
    collect_tsconfig_paths_recursive(files, start_path, &mut visited, &mut merged, 0);
    merged
}

/// A path alias without the wildcard behind it.
pub open spec fn alias_prefix(key: Seq<char>) -> Seq<char> {
    match without_suffix(key, "/*"@) {
        Some(prefix) => prefix,
        None => key,
    }
}

/// The prefixes of path aliases.
pub open spec fn alias_prefixes(paths: Seq<PathAliasView>) -> Seq<Seq<char>> {
    paths.map_values(|path: PathAliasView| alias_prefix(path.key))
}

/// Parse `tsconfig.base.json` (and its `extends` chain) and return the keys
/// from `compilerOptions.paths`.
///
/// These keys are the import specifiers that the TypeScript compiler (and the
/// resolver) will resolve to workspace-internal paths. They often differ from the Nx
/// project names — e.g. a project named `ui-widgets` may be mapped as
/// `@acme/shared-ui-widgets` in tsconfig paths.
///
/// Wildcard suffixes (`/*`) are stripped so the returned strings can be used as
/// prefix-match candidates in `is_workspace_specifier`.
///
/// When the tsconfig uses `extends`, the chain is followed and paths are
/// inherited from ancestor configs — matching TypeScript semantics where the
/// leaf config's `paths` take precedence.
pub fn parse_tsconfig_path_prefixes(files: &Vec<TsconfigFile>, cwd: &str) -> (r: Vec<String>)
    ensures
        texts(r@) == alias_prefixes(
            collected(
                files@,
                joined_path(cwd@, "tsconfig.base.json"@),
                nothing_collected(),
                0,
            ).paths,
        ),
{
    let start_path: String = join_path(cwd, "tsconfig.base.json");
    let paths: Vec<PathAlias> = collect_tsconfig_paths(files, start_path.as_str());
    let ghost all = alias_prefixes(path_alias_views(paths@));
    let mut r: Vec<String> = Vec::new();
    let mut i: usize = 0;
    proof {
        assert(texts(r@) =~= all.take(0));
    }
    while i < paths.len()
        invariant
            all == alias_prefixes(path_alias_views(paths@)),
            all.len() == paths@.len(),
            i <= paths@.len(),
            texts(r@) == all.take(i as int),
        decreases paths@.len() - i,
    {
        let ghost before = r@;
        let key: &String = &paths[i].key;
        let prefix: String = match strip_suffix(key.as_str(), "/*") {
            Some(prefix) => prefix,
            None => key.clone(),
        };
        r.push(prefix);
        proof {
            assert(path_alias_views(paths@)[i as int] == paths@[i as int]@);
            assert(all[i as int] == prefix@);
            assert(texts(r@) =~= texts(before).push(prefix@));
            assert(all.take(i + 1) =~= all.take(i as int).push(prefix@));
        }
        i = i + 1;
    }
    proof {
        assert(all.take(all.len() as int) =~= all);
    }
    r
}

/// What a key stands for among path aliases, from alias `from` on.
pub open spec fn targets_for(paths: Seq<PathAliasView>, key: Seq<char>, from: int) -> Option<
    Seq<Seq<char>>,
>
    decreases paths.len() - from,
{
    if from >= paths.len() {
        None
    } else if paths[from].key == key {
        Some(paths[from].targets)
    } else {
        targets_for(paths, key, from + 1)
    }
}

/// Skipping aliases and looking from further on come to the same.
proof fn lemma_targets_skip(paths: Seq<PathAliasView>, key: Seq<char>, from: int)
    requires
        0 <= from < paths.len(),
    ensures
        targets_for(paths.skip(1), key, from) == targets_for(paths, key, from + 1),
    decreases paths.len() - from,
{
    if from + 1 < paths.len() {
        assert(paths.skip(1)[from] == paths[from + 1]);
        if paths[from + 1].key != key {
            lemma_targets_skip(paths, key, from + 1);
        }
    }
}

/// An alias that was put last is found, and no other alias is lost.
pub proof fn lemma_with_path_targets(paths: Seq<PathAliasView>, path: PathAliasView, key: Seq<char>)
    ensures
        targets_for(with_path(paths, path), key, 0) == if key == path.key {
            Some(path.targets)
        } else {
            targets_for(paths, key, 0)
        },
    decreases paths.len(),
{
    let after = with_path(paths, path);
    if paths.len() == 0 {
        assert(after[0] == path);
        reveal_with_fuel(targets_for, 2);
    } else if paths[0].key == path.key {
        assert(after[0] == path);
        if key != path.key {
            assert(after.skip(1) =~= paths.skip(1));
            lemma_targets_skip(after, key, 0);
            lemma_targets_skip(paths, key, 0);
        }
    } else {
        let rest = paths.skip(1);
        lemma_with_path_targets(rest, path, key);
        assert(after[0] == paths[0]);
        assert(after.skip(1) =~= with_path(rest, path));
        if paths[0].key != key {
            lemma_targets_skip(after, key, 0);
            lemma_targets_skip(paths, key, 0);
        }
    }
}

/// Of aliases that were put one after the other the last of a key is found.
pub proof fn lemma_with_paths_targets(
    paths: Seq<PathAliasView>,
    more: Seq<PathAliasView>,
    upto: nat,
    at: int,
)
    requires
        0 <= at < upto <= more.len(),
        forall|k: int| at < k < upto ==> (#[trigger] more[k]).key != more[at].key,
    ensures
        targets_for(with_paths(paths, more, upto), more[at].key, 0) == Some(more[at].targets),
    decreases upto,
{
    lemma_with_path_targets(
        with_paths(paths, more, (upto - 1) as nat),
        more[upto - 1],
        more[at].key,
    );
    if at < upto - 1 {
        assert(more[upto - 1].key != more[at].key);
        lemma_with_paths_targets(paths, more, (upto - 1) as nat, at);
    }
}

/// The aliases of the file that the search starts from take precedence: whatever
/// the files that it extends say, each of its own keys stands for what it says.
pub proof fn law_leaf_paths_win(files: Seq<TsconfigFile>, path: Seq<char>, at: int)
    requires
        config_at(files, path, 0) matches Some(i) && files[i].config is Some,
        0 <= at < files[config_at(files, path, 0)->0].config->0.paths@.len(),
        forall|k: int|
            at < k < files[config_at(files, path, 0)->0].config->0.paths@.len() ==> (
            #[trigger] files[config_at(files, path, 0)->0].config->0.paths@[k]).key@
                != files[config_at(files, path, 0)->0].config->0.paths@[at].key@,
    ensures
        targets_for(
            collected(files, path, nothing_collected(), 0).paths,
            files[config_at(files, path, 0)->0].config->0.paths@[at].key@,
            0,
        ) == Some(texts(files[config_at(files, path, 0)->0].config->0.paths@[at].targets@)),
{
    let i = config_at(files, path, 0)->0;
    let config = files[i].config->0;
    let own = path_alias_views(config.paths@);
    let entered = Collected {
        visited: Set::empty().insert(normal(files[i].canonical@)),
        ..nothing_collected()
    };
    let parents = collected_parents(
        files,
        config_dir(path),
        texts(config.extends@),
        entered,
        0,
        config.extends@.len(),
    );
    assert(own[at] == config.paths@[at]@);
    assert forall|k: int| at < k < own.len() implies (#[trigger] own[k]).key != own[at].key by {
        assert(own[k] == config.paths@[k]@);
    }
    lemma_with_paths_targets(parents.paths, own, own.len(), at);
    assert(collected(files, path, nothing_collected(), 0).paths == with_paths(
        parents.paths,
        own,
        own.len(),
    ));
}

} // verus!
