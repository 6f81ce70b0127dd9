//! Which imports are asked for, what the index holds of the answers, and which source
//! files are taken, each told from the files.
use super::analyzer::{workspace_requests, AnalyzedView, WorkspaceView};
use super::import_index::{
    indexed, request_for, requests_in, requests_in_file, resolved_components,
    ImporterView, RequestView, Resolution, Surroundings,
};
use super::resolve_options::{
    all_aliases, leads_into_workspace, names_or_below, project_aliases, source_target, ProjectFacts,
};
use super::walk::{first_of_each, is_left_out, relative_components, relative_normals, SourcePath};
use crate::lists::{lemma_joined, lemma_pushed};
use crate::paths::{
    components, joined_path, law_normal_text, normal, parent_path, path_text, same_path,
};
use crate::spelled::{is_name, law_components, law_joined_path};
use crate::semantic::exports_map::AliasView;
use crate::types::Project;
use vstd::prelude::*;

verus! {

/// Whether a specifier is a name, or something below it.
pub open spec fn is_at_or_below(specifier: Seq<char>, name: Seq<char>) -> bool {
    specifier == name || exists|rest: Seq<char>| #[trigger]
        (name + seq!['/'] + rest) == specifier
}

/// Being a name or below it, told by what follows the name.
proof fn lemma_at_or_below(specifier: Seq<char>, name: Seq<char>)
    ensures
        names_or_below(specifier, name) == is_at_or_below(specifier, name),
{
    let head = name.push('/');
    assert(head =~= name + seq!['/']);
    if head.is_prefix_of(specifier) {
        assert(name + seq!['/'] + specifier.skip(head.len() as int) =~= specifier);
    }
    if exists|rest: Seq<char>| #[trigger] (name + seq!['/'] + rest) == specifier {
        let rest = choose|rest: Seq<char>| #[trigger] (name + seq!['/'] + rest) == specifier;
        assert(head =~= specifier.subrange(0, head.len() as int));
    }
}

/// A specifier leads into the workspace where it is a path, or a project's name, or a
/// path alias, or something below one of these; another does not.
pub proof fn law_leads_into_workspace(
    specifier: Seq<char>,
    projects: Seq<Project>,
    tsconfig_paths: Seq<String>,
)
    ensures
        leads_into_workspace(specifier, projects, tsconfig_paths) == ({
            ||| specifier.len() > 0 && specifier[0] == '.'
            ||| specifier.len() > 0 && specifier[0] == '/'
            ||| exists|i: int|
                0 <= i < projects.len() && is_at_or_below(specifier, (#[trigger] projects[i]).name@)
            ||| exists|i: int|
                0 <= i < tsconfig_paths.len() && is_at_or_below(
                    specifier,
                    (#[trigger] tsconfig_paths[i])@,
                )
        }),
{
    assert forall|i: int| 0 <= i < projects.len() implies is_at_or_below(
        specifier,
        (#[trigger] projects[i]).name@,
    ) == names_or_below(specifier, projects[i].name@) by {
        lemma_at_or_below(specifier, projects[i].name@);
    }
    assert forall|i: int| 0 <= i < tsconfig_paths.len() implies is_at_or_below(
        specifier,
        (#[trigger] tsconfig_paths[i])@,
    ) == names_or_below(specifier, tsconfig_paths[i]@) by {
        lemma_at_or_below(specifier, tsconfig_paths[i]@);
    }
}

/// Whether a request asks for import `r.import` of file `r.file`, as seen from the
/// directory of the file.
pub open spec fn asks_for(files: Seq<AnalyzedView>, around: Surroundings, r: RequestView) -> bool {
    &&& 0 <= r.file < files.len()
    &&& 0 <= r.import < files[r.file].imports.len()
    &&& r.specifier == files[r.file].imports[r.import].from_module
    &&& parent_path(joined_path(around.cwd, files[r.file].relative_path)) == Some(r.context)
    &&& leads_into_workspace(r.specifier, around.projects, around.tsconfig_paths)
}

/// The requests of one file.
proof fn lemma_file_requests(
    files: Seq<AnalyzedView>,
    around: Surroundings,
    i: int,
    upto: nat,
    r: RequestView,
)
    requires
        0 <= i < files.len(),
        upto <= files[i].imports.len(),
    ensures
        requests_in_file(files, around, i, upto).contains(r) == (r.file == i && r.import < upto
            && asks_for(files, around, r)),
        forall|a: int, b: int|
            0 <= a < b < requests_in_file(files, around, i, upto).len() ==> (
            #[trigger] requests_in_file(files, around, i, upto)[a]).import < (
            #[trigger] requests_in_file(files, around, i, upto)[b]).import,
        forall|a: int|
            0 <= a < requests_in_file(files, around, i, upto).len() ==> (
            #[trigger] requests_in_file(files, around, i, upto)[a]).file == i && requests_in_file(
                files,
                around,
                i,
                upto,
            )[a].import < upto,
    decreases upto,
{
    if upto > 0 {
        lemma_file_requests(files, around, i, (upto - 1) as nat, r);
        if let Some(request) = request_for(files, around, i, upto - 1) {
            lemma_pushed(
                requests_in_file(files, around, i, (upto - 1) as nat),
                request,
                r,
            );
        }
    }
}

/// What is asked for is exactly the imports that lead into the workspace, each as
/// seen from the directory of its file, in the order of the files and of the imports
/// in them.
pub proof fn law_requests(
    files: Seq<AnalyzedView>,
    around: Surroundings,
    upto: nat,
    r: RequestView,
)
    requires
        upto <= files.len(),
    ensures
        requests_in(files, around, upto).contains(r) == (r.file < upto && asks_for(
            files,
            around,
            r,
        )),
        forall|a: int, b: int|
            0 <= a < b < requests_in(files, around, upto).len() ==> (#[trigger] requests_in(
                files,
                around,
                upto,
            )[a]).file < (#[trigger] requests_in(files, around, upto)[b]).file || (requests_in(
                files,
                around,
                upto,
            )[a].file == requests_in(files, around, upto)[b].file && requests_in(
                files,
                around,
                upto,
            )[a].import < requests_in(files, around, upto)[b].import),
        forall|a: int|
            0 <= a < requests_in(files, around, upto).len() ==> (#[trigger] requests_in(
                files,
                around,
                upto,
            )[a]).file < upto,
    decreases upto,
{
    if upto > 0 {
        let i = upto - 1;
        law_requests(files, around, (upto - 1) as nat, r);
        lemma_file_requests(files, around, i, files[i].imports.len(), r);
        lemma_joined(
            requests_in(files, around, (upto - 1) as nat),
            requests_in_file(files, around, i, files[i].imports.len()),
            r,
        );
    }
}

/// Whether an answer leads to a place in the workspace: the file that was found, below
/// the working directory, or what was found instead.
pub open spec fn leads_to(cwd: Seq<char>, answer: Resolution, place: Seq<Seq<char>>) -> bool {
    match answer {
        Resolution::Found(path) => components(path@) == components(cwd) + place,
        Resolution::Fallback(Some(path)) => components(path@) == place,
        Resolution::Fallback(None) => false,
    }
}

/// The place that an answer leads to.
proof fn lemma_leads_to(cwd: Seq<char>, answer: Resolution, place: Seq<Seq<char>>)
    ensures
        leads_to(cwd, answer, place) == (resolved_components(cwd, answer) == Some(place)),
{
    if let Resolution::Found(path) = answer {
        let list = components(path@);
        let head = components(cwd);
        if list == head + place {
            assert(head =~= list.subrange(0, head.len() as int));
            assert(list.skip(head.len() as int) =~= place);
        }
        if head.is_prefix_of(list) {
            assert(head + list.skip(head.len() as int) =~= list);
        }
    }
}

/// Whether request `k` was answered with a place, under the name that its import takes
/// from there.
pub open spec fn is_answered(
    files: Seq<AnalyzedView>,
    cwd: Seq<char>,
    requests: Seq<RequestView>,
    answers: Seq<Resolution>,
    k: int,
    key: (Seq<char>, Seq<char>),
) -> bool {
    &&& files[requests[k].file].imports[requests[k].import].imported_name == key.1
    &&& exists|place: Seq<Seq<char>>| #[trigger]
        leads_to(cwd, answers[k], place) && path_text(place) == key.0
}

/// Whether an importer is the import that request `k` asks for.
pub open spec fn is_importer_by(
    files: Seq<AnalyzedView>,
    request: RequestView,
    importer: ImporterView,
) -> bool {
    &&& importer.importing_file == files[request.file].relative_path
    &&& importer.local_name == files[request.file].imports[request.import].local_name
    &&& importer.from_module == files[request.file].imports[request.import].from_module
    &&& importer.is_dynamic == files[request.file].imports[request.import].is_dynamic
}

/// The index holds, for a place and a name, every import whose request was answered
/// with that place and that takes that name from there, and no other, in the order of
/// the requests.
pub proof fn law_importers(
    files: Seq<AnalyzedView>,
    cwd: Seq<char>,
    requests: Seq<RequestView>,
    answers: Seq<Resolution>,
    upto: nat,
    key: (Seq<char>, Seq<char>),
)
    requires
        upto <= requests.len(),
        requests.len() == answers.len(),
    ensures
        ({
            let index = indexed(files, cwd, requests, answers, upto);
            let found = Seq::new(upto, |k: int| k).filter(
                |k: int| is_answered(files, cwd, requests, answers, k, key),
            );
            &&& index.dom().contains(key) == (found.len() > 0)
            &&& index.dom().contains(key) ==> index[key].len() == found.len() && forall|k: int|
                0 <= k < found.len() ==> is_importer_by(
                    files,
                    requests[#[trigger] found[k]],
                    index[key][k],
                )
        }),
    decreases upto,
{
    reveal(Seq::filter);
    let asked = |k: int| is_answered(files, cwd, requests, answers, k, key);
    let all = Seq::new(upto, |k: int| k);
    if upto > 0 {
        let fewer = (upto - 1) as nat;
        law_importers(files, cwd, requests, answers, fewer, key);
        let last = upto - 1;
        assert(all.drop_last() =~= Seq::new(fewer, |k: int| k));
        assert(all.last() == last);
        let before = indexed(files, cwd, requests, answers, fewer);
        let index = indexed(files, cwd, requests, answers, upto);
        let name = files[requests[last].file].imports[requests[last].import].imported_name;
        match resolved_components(cwd, answers[last]) {
            Some(list) => {
                lemma_leads_to(cwd, answers[last], list);
                assert forall|place: Seq<Seq<char>>| #[trigger]
                    leads_to(cwd, answers[last], place) implies place == list by {
                    lemma_leads_to(cwd, answers[last], place);
                }
                assert(leads_to(cwd, answers[last], list));
                assert(asked(last) == (key == (path_text(list), name)));
                if asked(last) {
                    let found = Seq::new(fewer, |k: int| k).filter(asked);
                    assert(all.filter(asked) == found.push(last));
                    assert forall|k: int| 0 <= k < found.push(last).len() implies is_importer_by(
                        files,
                        requests[#[trigger] found.push(last)[k]],
                        index[key][k],
                    ) by {
                        if k < found.len() {
                            assert(found[k] == found.push(last)[k]);
                        }
                    }
                }
            },
            None => {
                assert forall|place: Seq<Seq<char>>| !#[trigger] leads_to(
                    cwd,
                    answers[last],
                    place,
                ) by {
                    lemma_leads_to(cwd, answers[last], place);
                }
                assert(!asked(last));
            },
        }
    }
}

/// A directory is left out where it holds installed packages or build products, or
/// where it is hidden; no other is.
pub proof fn law_left_out(name: Seq<char>)
    ensures
        is_left_out(name) == ((name.len() > 0 && name[0] == '.') || name == seq![
            'n',
            'o',
            'd',
            'e',
            '_',
            'm',
            'o',
            'd',
            'u',
            'l',
            'e',
            's',
        ] || name == seq!['d', 'i', 's', 't'] || name == seq!['b', 'u', 'i', 'l', 'd']),
{
    reveal_strlit("node_modules");
    reveal_strlit("dist");
    reveal_strlit("build");
    assert("node_modules"@ =~= seq!['n', 'o', 'd', 'e', '_', 'm', 'o', 'd', 'u', 'l', 'e', 's']);
    assert("dist"@ =~= seq!['d', 'i', 's', 't']);
    assert("build"@ =~= seq!['b', 'u', 'i', 'l', 'd']);
}

/// A source file is known by what follows the working directory in its path, or by its
/// whole path where it stands elsewhere.
pub proof fn law_relative_components(cwd: Seq<char>, path: Seq<char>, rest: Seq<Seq<char>>)
    ensures
        components(path) == components(cwd) + rest ==> relative_components(cwd, path) == rest,
        !components(cwd).is_prefix_of(components(path)) ==> relative_components(cwd, path)
            == components(path),
{
    if components(path) == components(cwd) + rest {
        assert(components(cwd) =~= components(path).subrange(0, components(cwd).len() as int));
        assert(components(path).skip(components(cwd).len() as int) =~= rest);
    }
}

/// Whether path `k` is the first with its place.
pub open spec fn is_first_there(paths: Seq<SourcePath>, k: int) -> bool {
    forall|j: int|
        0 <= j < k ==> !same_path((#[trigger] paths[j]).relative_path@, paths[k].relative_path@)
}

/// A place is listed exactly where a path to it is.
proof fn lemma_listed_place(list: Seq<SourcePath>, path: Seq<char>)
    ensures
        relative_normals(list).contains(normal(path)) == exists|k: int|
            0 <= k < list.len() && same_path((#[trigger] list[k]).relative_path@, path),
{
    let all = relative_normals(list);
    if all.contains(normal(path)) {
        let k = choose|k: int| 0 <= k < all.len() && all[k] == normal(path);
        law_normal_text(list[k].relative_path@, path);
        assert(same_path(list[k].relative_path@, path));
    }
    if exists|k: int|
        0 <= k < list.len() && same_path((#[trigger] list[k]).relative_path@, path) {
        let k = choose|k: int|
            0 <= k < list.len() && same_path((#[trigger] list[k]).relative_path@, path);
        law_normal_text(list[k].relative_path@, path);
        assert(all[k] == normal(path));
    }
}

/// Whether a list holds a path to a place.
pub open spec fn leads_there(list: Seq<SourcePath>, path: Seq<char>) -> bool {
    exists|t: int| 0 <= t < list.len() && same_path((#[trigger] list[t]).relative_path@, path)
}

/// Every place is taken, and only paths that were given are.
proof fn lemma_places_taken(paths: Seq<SourcePath>, upto: nat)
    requires
        upto <= paths.len(),
    ensures
        forall|k: int|
            0 <= k < upto ==> #[trigger] leads_there(
                first_of_each(paths, upto),
                paths[k].relative_path@,
            ),
        forall|t: int|
            0 <= t < first_of_each(paths, upto).len() ==> #[trigger] paths.take(
                upto as int,
            ).contains(first_of_each(paths, upto)[t]),
    decreases upto,
{
    if upto > 0 {
        let fewer = (upto - 1) as nat;
        let last = upto - 1;
        lemma_places_taken(paths, fewer);
        let before = first_of_each(paths, fewer);
        let taken = first_of_each(paths, upto);
        lemma_listed_place(before, paths[last].relative_path@);
        assert forall|k: int| 0 <= k < upto implies #[trigger] leads_there(
            taken,
            paths[k].relative_path@,
        ) by {
            if k < fewer || taken == before {
                assert(leads_there(before, paths[k].relative_path@));
                let t = choose|t: int|
                    0 <= t < before.len() && same_path(
                        (#[trigger] before[t]).relative_path@,
                        paths[k].relative_path@,
                    );
                assert(taken[t] == before[t]);
            } else {
                assert(taken[before.len() as int] == paths[last]);
            }
        }
        assert forall|t: int| 0 <= t < taken.len() implies #[trigger] paths.take(
            upto as int,
        ).contains(taken[t]) by {
            if t < before.len() {
                assert(taken[t] == before[t]);
                assert(paths.take(fewer as int).contains(before[t]));
                let k = choose|k: int|
                    0 <= k < fewer && paths.take(fewer as int)[k] == before[t];
                assert(paths.take(upto as int)[k] == taken[t]);
            } else {
                assert(paths.take(upto as int)[last] == taken[t]);
            }
        }
    }
}

/// Of the paths to one place the first is taken, whatever their texts, and every place
/// is taken, in the order in which they first occur.
pub proof fn law_first_of_each(paths: Seq<SourcePath>, upto: nat)
    requires
        upto <= paths.len(),
    ensures
        first_of_each(paths, upto) == Seq::new(upto, |k: int| k).filter(
            |k: int| is_first_there(paths, k),
        ).map_values(|k: int| paths[k]),
    decreases upto,
{
    reveal(Seq::filter);
    let first = |k: int| is_first_there(paths, k);
    let at = |k: int| paths[k];
    let all = Seq::new(upto, |k: int| k);
    let taken = first_of_each(paths, upto);
    if upto == 0 {
        assert(taken =~= all.filter(first).map_values(at));
    } else {
        let fewer = (upto - 1) as nat;
        let last = upto - 1;
        law_first_of_each(paths, fewer);
        lemma_places_taken(paths, fewer);
        let before = first_of_each(paths, fewer);
        assert(all.drop_last() =~= Seq::new(fewer, |k: int| k));
        assert(all.last() == last);
        let path = paths[last].relative_path@;
        lemma_listed_place(before, path);
        assert(leads_there(before, path) == !first(last)) by {
            if leads_there(before, path) {
                let t = choose|t: int|
                    0 <= t < before.len() && same_path((#[trigger] before[t]).relative_path@, path);
                assert(paths.take(fewer as int).contains(before[t]));
                let k = choose|k: int|
                    0 <= k < fewer && paths.take(fewer as int)[k] == before[t];
                assert(same_path(paths[k].relative_path@, path));
            }
            if !first(last) {
                let j = choose|j: int|
                    0 <= j < last && same_path((#[trigger] paths[j]).relative_path@, path);
                assert(leads_there(before, paths[j].relative_path@));
                let t = choose|t: int|
                    0 <= t < before.len() && same_path(
                        (#[trigger] before[t]).relative_path@,
                        paths[j].relative_path@,
                    );
                assert(same_path(before[t].relative_path@, path));
            }
        }
        assert(taken =~= all.filter(first).map_values(at));
    }
}

/// No two paths that are taken lead to one place.
pub proof fn law_each_place_once(paths: Seq<SourcePath>, upto: nat, a: int, b: int)
    requires
        upto <= paths.len(),
        0 <= a < b < first_of_each(paths, upto).len(),
    ensures
        !same_path(
            first_of_each(paths, upto)[a].relative_path@,
            first_of_each(paths, upto)[b].relative_path@,
        ),
    decreases upto,
{
    let fewer = (upto - 1) as nat;
    let before = first_of_each(paths, fewer);
    let taken = first_of_each(paths, upto);
    if b < before.len() {
        law_each_place_once(paths, fewer, a, b);
        assert(taken[a] == before[a]);
        assert(taken[b] == before[b]);
    } else {
        lemma_listed_place(before, paths[upto - 1].relative_path@);
        assert(taken[a] == before[a]);
    }
}

/// The name of a project stands for its source root below the working directory, or
/// for the `src` in it where there is one and the source root is not itself called
/// that.
pub proof fn law_source_target(cwd: Seq<char>, project: Project, has_src_dir: bool)
    ensures
        ({
            let base = joined_path(cwd, project.source_root@);
            let list = components(base);
            let is_src = list.len() > 0 && list.last() == seq!['s', 'r', 'c'];
            let target = source_target(cwd, project, has_src_dir);
            &&& !has_src_dir || is_src ==> target == base
            &&& has_src_dir && !is_src ==> components(target) == list.push(
                seq!['s', 'r', 'c'],
            )
        }),
{
    reveal_strlit("src");
    assert("src"@ =~= seq!['s', 'r', 'c']);
    let base = joined_path(cwd, project.source_root@);
    assert(is_name("src"@));
    law_joined_path(base, "src"@, Seq::empty());
    if base.len() == 0 {
        assert(base =~= Seq::<char>::empty());
        law_components(base, "src"@);
        assert(components(base) =~= Seq::<Seq<char>>::empty());
        assert(Seq::<Seq<char>>::empty().push("src"@) =~= seq!["src"@]);
    }
}

/// The last alias of a project is its name. Before it stand what its manifest exports,
/// and only where that is asked for.
pub proof fn law_project_aliases(
    cwd: Seq<char>,
    project: Project,
    facts: ProjectFacts,
    resolve_package_exports: bool,
)
    ensures
        ({
            let aliases = project_aliases(cwd, project, facts, resolve_package_exports);
            &&& aliases.len() > 0
            &&& aliases.last().key == project.name@
            &&& aliases.last().target == source_target(cwd, project, facts.has_src_dir)
            &&& !resolve_package_exports || facts.exports is None ==> aliases.len() == 1
            &&& resolve_package_exports && facts.exports is Some ==> aliases.drop_last()
                == super::exports_map::exports_aliases(
                project.name@,
                joined_path(cwd, project.root@),
                facts.exports->0,
                facts.locations@,
                facts.canonical_source@,
            )
        }),
{
    if resolve_package_exports && facts.exports is Some {
        assert(project_aliases(cwd, project, facts, resolve_package_exports).drop_last()
            =~= super::exports_map::exports_aliases(
            project.name@,
            joined_path(cwd, project.root@),
            facts.exports->0,
            facts.locations@,
            facts.canonical_source@,
        ));
    }
}

/// The aliases of all projects are those of each of them, in their order.
pub proof fn law_all_aliases(
    cwd: Seq<char>,
    projects: Seq<Project>,
    facts: Seq<ProjectFacts>,
    resolve_package_exports: bool,
    upto: nat,
    alias: AliasView,
)
    requires
        upto <= projects.len(),
    ensures
        all_aliases(cwd, projects, facts, resolve_package_exports, upto).contains(alias) == exists|
            i: int,
        |
            0 <= i < upto && project_aliases(
                cwd,
                #[trigger] projects[i],
                facts[i],
                resolve_package_exports,
            ).contains(alias),
        upto > 0 ==> all_aliases(
            cwd,
            projects,
            facts,
            resolve_package_exports,
            (upto - 1) as nat,
        ).is_prefix_of(all_aliases(cwd, projects, facts, resolve_package_exports, upto)),
    decreases upto,
{
    if upto > 0 {
        let fewer = (upto - 1) as nat;
        law_all_aliases(cwd, projects, facts, resolve_package_exports, fewer, alias);
        let before = all_aliases(cwd, projects, facts, resolve_package_exports, fewer);
        let more = project_aliases(
            cwd,
            projects[upto - 1],
            facts[upto - 1],
            resolve_package_exports,
        );
        lemma_joined(before, more, alias);
        assert(before =~= (before + more).subrange(0, before.len() as int));
    }
}

/// A workspace asks for the imports of its files, by its projects and path aliases.
pub proof fn law_workspace_requests(workspace: WorkspaceView, cwd: Seq<char>, r: RequestView)
    ensures
        workspace_requests(workspace, cwd).contains(r) == asks_for(
            workspace.files,
            (Surroundings {
                cwd,
                projects: workspace.projects,
                tsconfig_paths: workspace.tsconfig_path_prefixes,
            }),
            r,
        ),
{
    let around = Surroundings {
        cwd,
        projects: workspace.projects,
        tsconfig_paths: workspace.tsconfig_path_prefixes,
    };
    law_requests(workspace.files, around, workspace.files.len(), r);
}

} // verus!
