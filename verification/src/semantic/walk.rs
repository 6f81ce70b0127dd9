//! Which files of a workspace are analyzed.
use crate::fx::{insert_name, names_in, no_names};
use crate::paths::{components, is_below, join_path, joined_path, normal, normalize, strip_path_prefix};
use crate::text::{chars_of, same};
use crate::types::Project;
use crate::utils::{is_source_file, is_source_path, lemma_set_push};
use rustc_hash::FxHashSet;
use vstd::prelude::*;

verus! {

/// Whether a directory is left out: one of dependencies or build results, or a
/// hidden one.
pub open spec fn is_left_out(name: Seq<char>) -> bool {
    name == "node_modules"@ || name == "dist"@ || name == "build"@ || (name.len() > 0 && name[0]
        == '.')
}

/// Whether a directory of the given name is looked into.
pub fn enters_directory(name: &str) -> (r: bool)
    ensures
        r == !is_left_out(name@),
{
    let chars: Vec<char> = chars_of(name);
    let hidden: bool = chars.len() > 0 && chars[0] == '.';
    !hidden && !same(name, "node_modules") && !same(name, "dist") && !same(name, "build")
}

/// The directory that a project's sources are looked for in.
pub fn source_directory(cwd: &str, project: &Project) -> (r: String)
    ensures
        r@ == joined_path(cwd@, project.source_root@),
{
    join_path(cwd, project.source_root.as_str())
}

/// A file by its path on disk and its path below the working directory.
#[derive(Debug, Clone, PartialEq, Eq)]
pub struct SourcePath {
    pub file_path: String,
    pub relative_path: String,
}

/// The components of a path below the working directory, where it lies there;
/// its own otherwise.
pub open spec fn relative_components(cwd: Seq<char>, path: Seq<char>) -> Seq<Seq<char>> {
    if is_below(path, cwd) {
        components(path).skip(components(cwd).len() as int)
    } else {
        components(path)
    }
}

/// A file that was found on disk, where it is a source file.
pub fn source_path(cwd: &str, file_path: String) -> (r: Option<SourcePath>)
    ensures
        match r {
            Some(path) => is_source_path(file_path@) && path.file_path@ == file_path@ && components(
                path.relative_path@,
            ) == relative_components(cwd@, file_path@),
            None => !is_source_path(file_path@),
        },
{
    if !is_source_file(file_path.as_str()) {
        return None;
    }
    let relative_path: String = match strip_path_prefix(file_path.as_str(), cwd) {
        Some(rest) => rest,
        None => file_path.clone(),
    };
    Some(SourcePath { file_path, relative_path })
}

/// The normal texts of the relative paths of files.
pub open spec fn relative_normals(paths: Seq<SourcePath>) -> Seq<Seq<char>> {
    paths.map_values(|path: SourcePath| normal(path.relative_path@))
}

/// The first `upto` files without those whose relative path came before.
pub open spec fn first_of_each(paths: Seq<SourcePath>, upto: nat) -> Seq<SourcePath>
    decreases upto,
{
    if upto == 0 {
        Seq::empty()
    } else {
        let before = first_of_each(paths, (upto - 1) as nat);
        let path = paths[upto - 1];
        if relative_normals(before).contains(normal(path.relative_path@)) {
            before
        } else {
            before.push(path)
        }
    }
}

/// The files, each relative path once: projects can share a source root.
pub fn unique_paths(paths: Vec<SourcePath>) -> (r: Vec<SourcePath>)
    ensures
        r@ == first_of_each(paths@, paths@.len()),
        relative_normals(r@).no_duplicates(),
{
    let mut seen: FxHashSet<String> = no_names();
    let mut r: Vec<SourcePath> = Vec::new();
    proof {
        assert(relative_normals(r@) =~= Seq::<Seq<char>>::empty());
        assert(relative_normals(r@).to_set() =~= Set::<Seq<char>>::empty());
    }
    for path in it: paths
        invariant
            it.seq() == paths@,
            r@ == first_of_each(paths@, it.index() as nat),
            names_in(&seen) == relative_normals(r@).to_set(),
            relative_normals(r@).no_duplicates(),
    {
        let key: String = normalize(path.relative_path.as_str());
        let ghost before = relative_normals(r@);
        let ghost name = key@;
        proof {
            assert(paths@[it.index() as int] == path);
            assert(before.to_set().contains(name) == before.contains(name));
            lemma_set_push(before, name);
        }
        if insert_name(&mut seen, key) {
            r.push(path);
            proof {
                assert(relative_normals(r@) =~= before.push(name));
                let longer = before.push(name);
                assert forall|a: int, b: int|
                    0 <= a < longer.len() && 0 <= b < longer.len() && a != b implies longer[a]
                    != longer[b] by {
                    if a < before.len() {
                        assert(before.contains(before[a]));
                    }
                    if b < before.len() {
                        assert(before.contains(before[b]));
                    }
                }
            }
        } else {
            proof {
                assert(names_in(&seen) =~= before.to_set());
            }
        }
    }
    r
}

} // verus!
