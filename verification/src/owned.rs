//! Which projects own a path, told from the projects and what their configurations
//! leave out.
use crate::paths::{absolute, components, law_normal_text, normal, same_path};
use crate::types::Project;
use crate::utils::{
    index_of, law_ownership, names_above, normal_texts, root_components, root_groups,
    source_groups, with_name, without, GroupView, IndexView, TsconfigExcludes,
};
use vstd::prelude::*;

verus! {

/// Whether project `i` is the last of its name that has a tsconfig whose excludes are
/// known.
pub open spec fn is_last_with_excludes(
    projects: Seq<Project>,
    excludes: Seq<Option<TsconfigExcludes>>,
    i: int,
) -> bool {
    &&& 0 <= i < projects.len()
    &&& projects[i].ts_config is Some
    &&& excludes[i] is Some
    &&& forall|j: int|
        i < j < projects.len() && (#[trigger] projects[j]).name@ == projects[i].name@
            ==> projects[j].ts_config is None || excludes[j] is None
}

/// A project's tsconfig leaves out exactly the files that its excludes hold. Where
/// projects share a name, the last one that has excludes counts.
pub proof fn law_excluded_files(
    projects: Seq<Project>,
    cwd: Seq<char>,
    excludes: Seq<Option<TsconfigExcludes>>,
    i: int,
    path: Seq<char>,
)
    requires
        excludes.len() == projects.len(),
        is_last_with_excludes(projects, excludes, i),
    ensures
        index_of(projects, cwd, excludes).excludes_file(projects[i].name@, path)
            == excludes[i]->0@.contains(normal(path)),
    decreases projects.len(),
{
    let n = projects.len() - 1;
    if i < n {
        let before = projects.drop_last();
        let rest = excludes.drop_last();
        assert forall|j: int|
            i < j < before.len() && (#[trigger] before[j]).name@
                == before[i].name@ implies before[j].ts_config is None || rest[j] is None by {
            assert(projects[j].name@ == projects[i].name@);
        }
        law_excluded_files(before, cwd, rest, i, path);
        assert(projects[n] == projects.last());
    }
}

/// A name under which no project has a tsconfig with known excludes has nothing left
/// out.
pub proof fn law_nothing_excluded(
    projects: Seq<Project>,
    cwd: Seq<char>,
    excludes: Seq<Option<TsconfigExcludes>>,
    name: Seq<char>,
    path: Seq<char>,
)
    requires
        excludes.len() == projects.len(),
        forall|j: int|
            0 <= j < projects.len() && (#[trigger] projects[j]).name@ == name
                ==> projects[j].ts_config is None || excludes[j] is None,
    ensures
        !index_of(projects, cwd, excludes).excludes_file(name, path),
    decreases projects.len(),
{
    if projects.len() > 0 {
        let before = projects.drop_last();
        let rest = excludes.drop_last();
        assert forall|j: int|
            0 <= j < before.len() && (#[trigger] before[j]).name@
                == name implies before[j].ts_config is None || rest[j] is None by {
            assert(projects[j].name@ == name);
        }
        law_nothing_excluded(before, cwd, rest, name, path);
        assert(projects[projects.len() - 1] == projects.last());
    }
}

/// Whether a path is left out does not depend on how it is written.
pub proof fn law_listed_files(files: Seq<String>, path: Seq<char>)
    ensures
        normal_texts(files).to_set().contains(normal(path)) == exists|k: int|
            0 <= k < files.len() && same_path((#[trigger] files[k])@, path),
{
    let list = normal_texts(files);
    if list.to_set().contains(normal(path)) {
        let k = choose|k: int| 0 <= k < list.len() && list[k] == normal(path);
        law_normal_text(files[k]@, path);
        assert(same_path(files[k]@, path));
    }
    if exists|k: int| 0 <= k < files.len() && same_path((#[trigger] files[k])@, path) {
        let k = choose|k: int| 0 <= k < files.len() && same_path((#[trigger] files[k])@, path);
        law_normal_text(files[k]@, path);
        assert(list[k] == normal(path));
    }
}

/// A root is taken as it stands, but for an absolute one below the working
/// directory: of it, what follows the working directory is taken.
pub proof fn law_root_components(root: Seq<char>, cwd: Seq<char>, rest: Seq<Seq<char>>)
    ensures
        root.len() == 0 || root[0] != '/' ==> root_components(root, cwd) == components(root),
        root.len() > 0 && root[0] == '/' && components(root) == components(cwd) + rest
            ==> root_components(root, cwd) == rest,
        root.len() > 0 && root[0] == '/' && !components(cwd).is_prefix_of(components(root))
            ==> root_components(root, cwd) == components(root),
{
    if absolute(root) && components(root) == components(cwd) + rest {
        assert(components(cwd) =~= components(root).subrange(0, components(cwd).len() as int));
        assert(components(root).skip(components(cwd).len() as int) =~= rest);
    }
}

/// Whether a path stands below the source root of a project.
pub open spec fn holds_as_source(project: Project, cwd: Seq<char>, path: Seq<char>) -> bool {
    exists|rest: Seq<Seq<char>>|
        #[trigger] (root_components(project.source_root@, cwd) + rest) == components(path)
}

/// Whether a path stands below the root of a project that has one beside its source
/// root, other than the whole workspace.
pub open spec fn holds_as_root(project: Project, cwd: Seq<char>, path: Seq<char>) -> bool {
    let root = root_components(project.root@, cwd);
    &&& root != root_components(project.source_root@, cwd)
    &&& root.len() > 0
    &&& !(root.len() == 1 && root[0] == seq!['.'])
    &&& exists|rest: Seq<Seq<char>>| #[trigger] (root + rest) == components(path)
}

/// A list starts with another exactly where something can be put behind that other.
proof fn lemma_starts_with(head: Seq<Seq<char>>, list: Seq<Seq<char>>)
    ensures
        head.is_prefix_of(list) == exists|rest: Seq<Seq<char>>| #[trigger] (head + rest) == list,
{
    if head.is_prefix_of(list) {
        assert(head + list.skip(head.len() as int) =~= list);
    }
    if exists|rest: Seq<Seq<char>>| #[trigger] (head + rest) == list {
        let rest = choose|rest: Seq<Seq<char>>| #[trigger] (head + rest) == list;
        assert(head =~= list.subrange(0, head.len() as int));
    }
}

/// A path belongs to every project below whose source root it stands, and to every
/// project below whose own root it stands, and to no other. A reference in it counts
/// for all of these, but for those below whose source root it stands and whose
/// tsconfig leaves it out.
pub proof fn law_owners(
    projects: Seq<Project>,
    cwd: Seq<char>,
    excludes: Seq<Option<TsconfigExcludes>>,
    path: Seq<char>,
    name: Seq<char>,
)
    requires
        excludes.len() == projects.len(),
    ensures
        ({
            let index = index_of(projects, cwd, excludes);
            let as_source = exists|i: int|
                0 <= i < projects.len() && (#[trigger] projects[i]).name@ == name
                    && holds_as_source(projects[i], cwd, path);
            let as_root = exists|i: int|
                0 <= i < projects.len() && (#[trigger] projects[i]).name@ == name && holds_as_root(
                    projects[i],
                    cwd,
                    path,
                );
            &&& index.owners(path, true).contains(name) == (as_source || as_root)
            &&& as_source ==> index.owners(path, false).contains(name) == !index.excludes_file(
                name,
                path,
            )
            &&& !as_source ==> index.owners(path, false).contains(name) == as_root
        }),
{
    law_ownership(projects, cwd, excludes, path, name);
    assert forall|i: int| 0 <= i < projects.len() implies holds_as_source(
        #[trigger] projects[i],
        cwd,
        path,
    ) == crate::utils::below_source_root(projects[i], cwd, path) && holds_as_root(
        projects[i],
        cwd,
        path,
    ) == crate::utils::below_own_root(projects[i], cwd, path) by {
        lemma_starts_with(root_components(projects[i].source_root@, cwd), components(path));
        lemma_starts_with(root_components(projects[i].root@, cwd), components(path));
        let root = root_components(projects[i].root@, cwd);
        if root.len() == 1 && root[0] == seq!['.'] {
            assert(root =~= seq![seq!['.']]);
        }
    }
}

/// A root that no group has gets a group of its own, at the end.
proof fn lemma_new_group(groups: Seq<GroupView>, root: Seq<Seq<char>>, name: Seq<char>)
    requires
        forall|g: int| 0 <= g < groups.len() ==> (#[trigger] groups[g]).root != root,
    ensures
        with_name(groups, root, name) == groups.push(GroupView { root, names: seq![name] }),
    decreases groups.len(),
{
    if groups.len() > 0 {
        assert(groups[0].root != root);
        assert forall|g: int| 0 <= g < groups.skip(1).len() implies (
        #[trigger] groups.skip(1)[g]).root != root by {
            assert(groups[g + 1].root != root);
        }
        lemma_new_group(groups.skip(1), root, name);
        assert(with_name(groups, root, name) =~= groups.push(
            GroupView { root, names: seq![name] },
        ));
    } else {
        assert(with_name(groups, root, name) =~= groups.push(
            GroupView { root, names: seq![name] },
        ));
    }
}

/// Whether no two projects share a source root.
pub open spec fn has_each_root_once(projects: Seq<Project>, cwd: Seq<char>) -> bool {
    forall|i: int, j: int|
        0 <= i < j < projects.len() ==> root_components(
            (#[trigger] projects[i]).source_root@,
            cwd,
        ) != root_components((#[trigger] projects[j]).source_root@, cwd)
}

/// Projects with source roots of their own have groups of their own, in their order.
proof fn lemma_groups_in_order(projects: Seq<Project>, cwd: Seq<char>)
    requires
        has_each_root_once(projects, cwd),
    ensures
        source_groups(projects, cwd).len() == projects.len(),
        forall|i: int|
            0 <= i < projects.len() ==> #[trigger] source_groups(projects, cwd)[i] == (GroupView {
                root: root_components(projects[i].source_root@, cwd),
                names: seq![projects[i].name@],
            }),
    decreases projects.len(),
{
    if projects.len() > 0 {
        let before = projects.drop_last();
        let last = projects.last();
        lemma_groups_in_order(before, cwd);
        let root = root_components(last.source_root@, cwd);
        let groups = source_groups(before, cwd);
        assert forall|g: int| 0 <= g < groups.len() implies (#[trigger] groups[g]).root != root by {
            assert(projects[g] == before[g]);
            assert(projects[projects.len() - 1] == last);
        }
        lemma_new_group(groups, root, last.name@);
    }
}

/// The source roots above a path give the names of their projects, in order.
proof fn lemma_kept_in_order(
    index: IndexView,
    projects: Seq<Project>,
    cwd: Seq<char>,
    path: Seq<char>,
    skip: bool,
)
    requires
        has_each_root_once(projects, cwd),
    ensures
        index.kept(names_above(source_groups(projects, cwd), components(path)), path, skip)
            == projects.filter(
            |p: Project|
                holds_as_source(p, cwd, path) && (skip || !index.excludes_file(p.name@, path)),
        ).map_values(|p: Project| p.name@),
    decreases projects.len(),
{
    reveal(Seq::filter);
    let list = components(path);
    let keeps = |p: Project|
        holds_as_source(p, cwd, path) && (skip || !index.excludes_file(p.name@, path));
    let name = |p: Project| p.name@;
    if projects.len() == 0 {
        assert(projects.filter(keeps).map_values(name) =~= Seq::<Seq<char>>::empty());
    } else {
        let before = projects.drop_last();
        let last = projects.last();
        lemma_kept_in_order(index, before, cwd, path, skip);
        lemma_groups_in_order(projects, cwd);
        lemma_groups_in_order(before, cwd);
        let groups = source_groups(projects, cwd);
        assert(groups.drop_last() =~= source_groups(before, cwd)) by {
            assert forall|i: int| 0 <= i < before.len() implies groups.drop_last()[i]
                == source_groups(before, cwd)[i] by {
                assert(groups[i].root == source_groups(before, cwd)[i].root);
            }
        }
        let root = root_components(last.source_root@, cwd);
        lemma_starts_with(root, list);
        let names = names_above(groups.drop_last(), list);
        assert(groups.last() == groups[projects.len() - 1]);
        assert(projects[projects.len() - 1] == last);
        if root.is_prefix_of(list) {
            assert(names + seq![last.name@] =~= names.push(last.name@));
            assert(names.push(last.name@).drop_last() =~= names);
            assert(names_above(groups, list) == names.push(last.name@));
        }
        if keeps(last) {
            assert(projects.filter(keeps).map_values(name) =~= before.filter(keeps).map_values(
                name,
            ).push(last.name@));
        } else {
            assert(projects.filter(keeps).map_values(name) =~= before.filter(keeps).map_values(
                name,
            ));
        }
    }
}

/// Projects without own roots have no groups of roots.
proof fn lemma_no_root_groups(projects: Seq<Project>, cwd: Seq<char>)
    requires
        forall|i: int|
            0 <= i < projects.len() ==> root_components((#[trigger] projects[i]).root@, cwd)
                == root_components(projects[i].source_root@, cwd),
    ensures
        root_groups(projects, cwd).len() == 0,
    decreases projects.len(),
{
    if projects.len() > 0 {
        let before = projects.drop_last();
        assert forall|i: int| 0 <= i < before.len() implies root_components(
            (#[trigger] before[i]).root@,
            cwd,
        ) == root_components(before[i].source_root@, cwd) by {
            assert(projects[i] == before[i]);
        }
        lemma_no_root_groups(before, cwd);
        assert(projects[projects.len() - 1] == projects.last());
    }
}

/// Where no two projects share a source root and each root is its source root, the
/// owners of a path stand in the order of the projects, each once for each project
/// that holds the path.
pub proof fn law_owners_in_order(
    projects: Seq<Project>,
    cwd: Seq<char>,
    excludes: Seq<Option<TsconfigExcludes>>,
    path: Seq<char>,
    skip_excludes: bool,
)
    requires
        has_each_root_once(projects, cwd),
        forall|i: int|
            0 <= i < projects.len() ==> root_components((#[trigger] projects[i]).root@, cwd)
                == root_components(projects[i].source_root@, cwd),
    ensures
        ({
            let index = index_of(projects, cwd, excludes);
            index.owners(path, skip_excludes) == projects.filter(
                |p: Project|
                    holds_as_source(p, cwd, path) && (skip_excludes || !index.excludes_file(
                        p.name@,
                        path,
                    )),
            ).map_values(|p: Project| p.name@)
        }),
{
    let index = index_of(projects, cwd, excludes);
    lemma_kept_in_order(index, projects, cwd, path, skip_excludes);
    lemma_no_root_groups(projects, cwd);
    assert(index.root_entries =~= Seq::empty());
    let found = names_above(index.entries, components(path));
    let others = names_above(index.root_entries, components(path));
    assert(without(others, found.to_set()) =~= Seq::<Seq<char>>::empty());
    assert(index.owners(path, skip_excludes) =~= index.kept(found, path, skip_excludes));
}

/// How often a name is listed.
pub open spec fn times(names: Seq<Seq<char>>, name: Seq<char>) -> nat {
    names.filter(|n: Seq<char>| n == name).len()
}

/// A name is listed as often in two lists, one behind the other, as in both of them.
proof fn lemma_times_joined(a: Seq<Seq<char>>, b: Seq<Seq<char>>, name: Seq<char>)
    ensures
        times(a + b, name) == times(a, name) + times(b, name),
{
    Seq::filter_distributes_over_add(a, b, |n: Seq<char>| n == name);
}

/// How often a single name is listed.
proof fn lemma_times_single(other: Seq<char>, name: Seq<char>)
    ensures
        times(seq![other], name) == if other == name {
            1nat
        } else {
            0nat
        },
        times(Seq::empty(), name) == 0,
{
    reveal(Seq::filter);
    reveal_with_fuel(Seq::filter, 2);
    assert(seq![other].drop_last() =~= Seq::<Seq<char>>::empty());
    assert(seq![other].last() == other);
}

/// A name is listed where it is met.
proof fn lemma_times_contains(names: Seq<Seq<char>>, name: Seq<char>)
    ensures
        names.contains(name) == (times(names, name) > 0),
    decreases names.len(),
{
    reveal(Seq::filter);
    if names.len() > 0 {
        let before = names.drop_last();
        lemma_times_contains(before, name);
        assert(names =~= before.push(names.last()));
        crate::lists::lemma_pushed(before, names.last(), name);
    }
}

/// The names above a path, told from the first group.
proof fn lemma_names_above_first(groups: Seq<GroupView>, path: Seq<Seq<char>>)
    requires
        groups.len() > 0,
    ensures
        names_above(groups, path) == (if groups[0].root.is_prefix_of(path) {
            groups[0].names
        } else {
            Seq::empty()
        }) + names_above(groups.skip(1), path),
    decreases groups.len(),
{
    let first = if groups[0].root.is_prefix_of(path) {
        groups[0].names
    } else {
        Seq::<Seq<char>>::empty()
    };
    let rest = groups.skip(1);
    if groups.len() == 1 {
        assert(groups.drop_last() =~= Seq::<GroupView>::empty());
        assert(rest =~= Seq::<GroupView>::empty());
        assert(groups.last() == groups[0]);
        assert(names_above(groups, path) =~= first + names_above(rest, path));
    } else {
        lemma_names_above_first(groups.drop_last(), path);
        assert(groups.drop_last().skip(1) =~= rest.drop_last());
        assert(rest.last() == groups.last());
        assert(names_above(groups, path) =~= first + names_above(rest, path));
    }
}

/// A name that is put to a root is listed once more above the paths below that root.
proof fn lemma_times_with_name(
    groups: Seq<GroupView>,
    root: Seq<Seq<char>>,
    other: Seq<char>,
    path: Seq<Seq<char>>,
    name: Seq<char>,
)
    ensures
        times(names_above(with_name(groups, root, other), path), name) == times(
            names_above(groups, path),
            name,
        ) + if root.is_prefix_of(path) && other == name {
            1nat
        } else {
            0nat
        },
    decreases groups.len(),
{
    let after = with_name(groups, root, other);
    let none = Seq::<Seq<char>>::empty();
    lemma_times_single(other, name);
    lemma_names_above_first(after, path);
    let first = if after[0].root.is_prefix_of(path) {
        after[0].names
    } else {
        none
    };
    lemma_times_joined(first, names_above(after.skip(1), path), name);
    if groups.len() == 0 {
        assert(after.skip(1) =~= Seq::<GroupView>::empty());
        assert(names_above(after.skip(1), path) =~= none);
        assert(names_above(groups, path) =~= none);
    } else {
        lemma_names_above_first(groups, path);
        let head = if groups[0].root.is_prefix_of(path) {
            groups[0].names
        } else {
            none
        };
        lemma_times_joined(head, names_above(groups.skip(1), path), name);
        if groups[0].root == root {
            assert(after.skip(1) =~= groups.skip(1));
            assert(groups[0].names.push(other) =~= groups[0].names + seq![other]);
            lemma_times_joined(groups[0].names, seq![other], name);
        } else {
            assert(after.skip(1) =~= with_name(groups.skip(1), root, other));
            lemma_times_with_name(groups.skip(1), root, other, path, name);
        }
    }
}

/// How many projects of a name hold a path by their source roots.
pub open spec fn source_holders(
    projects: Seq<Project>,
    cwd: Seq<char>,
    path: Seq<char>,
    name: Seq<char>,
) -> nat {
    projects.filter(|p: Project| p.name@ == name && holds_as_source(p, cwd, path)).len()
}

/// How many projects of a name hold a path by roots of their own.
pub open spec fn root_holders(
    projects: Seq<Project>,
    cwd: Seq<char>,
    path: Seq<char>,
    name: Seq<char>,
) -> nat {
    projects.filter(|p: Project| p.name@ == name && holds_as_root(p, cwd, path)).len()
}

/// A name is listed above a path once for each project that holds the path.
proof fn lemma_times_above(
    projects: Seq<Project>,
    cwd: Seq<char>,
    path: Seq<char>,
    name: Seq<char>,
)
    ensures
        times(names_above(source_groups(projects, cwd), components(path)), name) == source_holders(
            projects,
            cwd,
            path,
            name,
        ),
        times(names_above(root_groups(projects, cwd), components(path)), name) == root_holders(
            projects,
            cwd,
            path,
            name,
        ),
    decreases projects.len(),
{
    reveal(Seq::filter);
    let list = components(path);
    if projects.len() == 0 {
        lemma_times_single(name, name);
        assert(names_above(source_groups(projects, cwd), list) =~= Seq::<Seq<char>>::empty());
        assert(names_above(root_groups(projects, cwd), list) =~= Seq::<Seq<char>>::empty());
    } else {
        let before = projects.drop_last();
        let last = projects.last();
        lemma_times_above(before, cwd, path, name);
        let source = root_components(last.source_root@, cwd);
        let root = root_components(last.root@, cwd);
        lemma_starts_with(source, list);
        lemma_starts_with(root, list);
        lemma_times_with_name(source_groups(before, cwd), source, last.name@, list, name);
        lemma_times_with_name(root_groups(before, cwd), root, last.name@, list, name);
        if root.len() == 1 && root[0] == seq!['.'] {
            assert(root =~= seq![seq!['.']]);
        }
    }
}

/// How often a name is listed among those that are kept.
proof fn lemma_times_kept(
    index: IndexView,
    names: Seq<Seq<char>>,
    path: Seq<char>,
    skip: bool,
    name: Seq<char>,
)
    ensures
        times(index.kept(names, path, skip), name) == if skip || !index.excludes_file(name, path) {
            times(names, name)
        } else {
            0
        },
    decreases names.len(),
{
    reveal(Seq::filter);
    if names.len() > 0 {
        let before = names.drop_last();
        let kept = index.kept(before, path, skip);
        lemma_times_kept(index, before, path, skip, name);
        assert(kept.push(names.last()).drop_last() =~= kept);
    }
}

/// How often a name is listed among those that are not taken.
proof fn lemma_times_without(names: Seq<Seq<char>>, taken: Set<Seq<char>>, name: Seq<char>)
    ensures
        times(without(names, taken), name) == if taken.contains(name) {
            0
        } else {
            times(names, name)
        },
    decreases names.len(),
{
    reveal(Seq::filter);
    if names.len() > 0 {
        let before = names.drop_last();
        let left = without(before, taken);
        lemma_times_without(before, taken, name);
        assert(left.push(names.last()).drop_last() =~= left);
    }
}

/// A project is named once for each time that it holds a path: by its source root, or,
/// where no project of its name does so, by a root of its own.
pub proof fn law_owners_once_each(
    projects: Seq<Project>,
    cwd: Seq<char>,
    excludes: Seq<Option<TsconfigExcludes>>,
    path: Seq<char>,
    name: Seq<char>,
)
    ensures
        ({
            let index = index_of(projects, cwd, excludes);
            let by_source = source_holders(projects, cwd, path, name);
            let by_root = root_holders(projects, cwd, path, name);
            &&& times(index.owners(path, true), name) == if by_source > 0 {
                by_source
            } else {
                by_root
            }
            &&& times(index.owners(path, false), name) == if by_source == 0 {
                by_root
            } else if index.excludes_file(name, path) {
                0
            } else {
                by_source
            }
        }),
{
    let index = index_of(projects, cwd, excludes);
    let found = names_above(index.entries, components(path));
    let others = names_above(index.root_entries, components(path));
    lemma_times_above(projects, cwd, path, name);
    lemma_times_contains(found, name);
    assert(found.to_set().contains(name) == found.contains(name));
    lemma_times_without(others, found.to_set(), name);
    lemma_times_kept(index, found, path, true, name);
    lemma_times_kept(index, found, path, false, name);
    let rest = without(others, found.to_set());
    lemma_times_joined(index.kept(found, path, true), rest, name);
    lemma_times_joined(index.kept(found, path, false), rest, name);
}

} // verus!
