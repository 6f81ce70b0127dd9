//! Who imports what: the reverse of the files' imports.
use crate::fx::{no_pair_numbers, pair_number_of, pair_numbers_in, set_pair_number};
use crate::paths::{
    components, is_below, join_path, joined_path, normal, normalize, parent_of, parent_path,
    strip_path_prefix,
};
use crate::semantic::analyzer::{file_views, AnalyzedFile, AnalyzedView};
use crate::semantic::resolve_options::{is_workspace_specifier, leads_into_workspace};
use crate::types::{Import, Project};
use rustc_hash::FxHashMap;
use vstd::prelude::*;

verus! {

/// An import of a symbol: where, under which name, from which specifier.
#[derive(Debug, Clone, PartialEq, Eq)]
pub struct Importer {
    pub importing_file: String,
    pub local_name: String,
    /// Kept for re-export checking
    pub from_module: String,
    pub is_dynamic: bool,
}

/// What an [`Importer`] stands for.
#[verifier::ext_equal]
pub struct ImporterView {
    pub importing_file: Seq<char>,
    pub local_name: Seq<char>,
    pub from_module: Seq<char>,
    pub is_dynamic: bool,
}

impl View for Importer {
    type V = ImporterView;

    open spec fn view(&self) -> ImporterView {
        ImporterView {
            importing_file: self.importing_file@,
            local_name: self.local_name@,
            from_module: self.from_module@,
            is_dynamic: self.is_dynamic,
        }
    }
}

/// What a list of importers stands for.
pub open spec fn importer_views(importers: Seq<Importer>) -> Seq<ImporterView> {
    importers.map_values(|importer: Importer| importer@)
}

/// Reverse import index: (source_file, symbol_name) -> the imports of that symbol.
/// This index maps from a file+symbol to all the places that import it
pub struct ImportIndex {
    numbers: FxHashMap<(String, String), usize>,
    lists: Vec<Vec<Importer>>,
}

/// The index with one importer more.
pub open spec fn with_importer(
    index: Map<(Seq<char>, Seq<char>), Seq<ImporterView>>,
    key: (Seq<char>, Seq<char>),
    importer: ImporterView,
) -> Map<(Seq<char>, Seq<char>), Seq<ImporterView>> {
    if index.dom().contains(key) {
        index.insert(key, index[key].push(importer))
    } else {
        index.insert(key, seq![importer])
    }
}

impl View for ImportIndex {
    type V = Map<(Seq<char>, Seq<char>), Seq<ImporterView>>;

    closed spec fn view(&self) -> Map<(Seq<char>, Seq<char>), Seq<ImporterView>> {
        pair_numbers_in(&self.numbers).map_values(
            |number: usize| importer_views(self.lists@[number as int]@),
        )
    }
}

impl ImportIndex {
    /// Each pair has a list of its own.
    #[verifier::type_invariant]
    spec fn inv(self) -> bool {
        let numbers = pair_numbers_in(&self.numbers);
        &&& forall|key: (Seq<char>, Seq<char>)|
            numbers.dom().contains(key) ==> #[trigger] numbers[key] < self.lists@.len()
        &&& forall|a: (Seq<char>, Seq<char>), b: (Seq<char>, Seq<char>)|
            numbers.dom().contains(a) && numbers.dom().contains(b) && #[trigger] numbers[a]
                == #[trigger] numbers[b] ==> a == b
    }

    /// An index of nothing.
    pub fn new() -> (r: ImportIndex)
        ensures
            r@ == Map::<(Seq<char>, Seq<char>), Seq<ImporterView>>::empty(),
    {
        let r: ImportIndex = ImportIndex { numbers: no_pair_numbers(), lists: Vec::new() };
        proof {
            assert(r@ =~= Map::empty());
        }
        r
    }

    /// The imports of a symbol of a file.
    pub fn importers_of(&self, source_file: &str, symbol_name: &str) -> (r: Option<&Vec<Importer>>)
        ensures
            match r {
                Some(list) => self@.contains_pair(
                    (normal(source_file@), symbol_name@),
                    importer_views(list@),
                ),
                None => !self@.dom().contains((normal(source_file@), symbol_name@)),
            },
    {
        proof {
            use_type_invariant(self);
        }
        let key: (String, String) = (normalize(source_file), symbol_name.to_owned());
        match pair_number_of(&self.numbers, &key) {
            Some(number) => Some(&self.lists[number]),
            None => None,
        }
    }

    /// The index with one importer more of a symbol of a file.
    pub fn with(self, source_file: &str, symbol_name: &str, importer: Importer) -> (r: ImportIndex)
        ensures
            r@ == with_importer(self@, (normal(source_file@), symbol_name@), importer@),
    {
        proof {
            use_type_invariant(&self);
        }
        let ghost before = self@;
        let ghost key = (normal(source_file@), symbol_name@);
        let pair: (String, String) = (normalize(source_file), symbol_name.to_owned());
        let mut numbers: FxHashMap<(String, String), usize> = self.numbers;
        let mut lists: Vec<Vec<Importer>> = self.lists;
        let ghost old_numbers = pair_numbers_in(&numbers);
        let ghost old_lists = lists@;
        match pair_number_of(&numbers, &pair) {
            Some(number) => {
                lists[number].push(importer);
                let r: ImportIndex = ImportIndex { numbers, lists };
                proof {
                    assert(importer_views(r.lists@[number as int]@) =~= importer_views(
                        old_lists[number as int]@,
                    ).push(importer@));
                    assert(r@ =~= with_importer(before, key, importer@));
                }
                r
            },
            None => {
                let number: usize = lists.len();
                let mut list: Vec<Importer> = Vec::new();
                list.push(importer);
                lists.push(list);
                set_pair_number(&mut numbers, pair, number);
                let r: ImportIndex = ImportIndex { numbers, lists };
                proof {
                    assert(importer_views(list@) =~= seq![importer@]);
                    assert(r@ =~= with_importer(before, key, importer@));
                }
                r
            },
        }
    }
}

/// An import whose specifier is to be resolved.
#[derive(Debug, Clone, PartialEq, Eq)]
pub struct ImportRequest {
    /// The number of the importing file
    pub file: usize,
    /// The number of the import in its file
    pub import: usize,
    /// The directory that the specifier is seen from
    pub context: String,
    pub specifier: String,
}

/// What an [`ImportRequest`] stands for.
#[verifier::ext_equal]
pub struct RequestView {
    pub file: int,
    pub import: int,
    pub context: Seq<char>,
    pub specifier: Seq<char>,
}

impl View for ImportRequest {
    type V = RequestView;

    open spec fn view(&self) -> RequestView {
        RequestView {
            file: self.file as int,
            import: self.import as int,
            context: self.context@,
            specifier: self.specifier@,
        }
    }
}

/// What a list of requests stands for.
pub open spec fn request_views(requests: Seq<ImportRequest>) -> Seq<RequestView> {
    requests.map_values(|request: ImportRequest| request@)
}

/// The workspace that imports are resolved in.
#[verifier::ext_equal]
pub struct Surroundings {
    pub cwd: Seq<char>,
    pub projects: Seq<Project>,
    pub tsconfig_paths: Seq<String>,
}

/// The request for import `j` of file `i`, where its specifier may lead into the
/// workspace.
pub open spec fn request_for(files: Seq<AnalyzedView>, around: Surroundings, i: int, j: int) -> Option<
    RequestView,
> {
    let specifier = files[i].imports[j].from_module;
    match parent_path(joined_path(around.cwd, files[i].relative_path)) {
        Some(context) => if leads_into_workspace(
            specifier,
            around.projects,
            around.tsconfig_paths,
        ) {
            Some(RequestView { file: i, import: j, context, specifier })
        } else {
            None
        },
        None => None,
    }
}

/// The requests for the first `upto` imports of file `i`.
pub open spec fn requests_in_file(
    files: Seq<AnalyzedView>,
    around: Surroundings,
    i: int,
    upto: nat,
) -> Seq<RequestView>
    decreases upto,
{
    if upto == 0 {
        Seq::empty()
    } else {
        let before = requests_in_file(files, around, i, (upto - 1) as nat);
        match request_for(files, around, i, upto - 1) {
            Some(request) => before.push(request),
            None => before,
        }
    }
}

/// The requests for the imports of the first `upto` files.
pub open spec fn requests_in(files: Seq<AnalyzedView>, around: Surroundings, upto: nat) -> Seq<
    RequestView,
>
    decreases upto,
{
    if upto == 0 {
        Seq::empty()
    } else {
        requests_in(files, around, (upto - 1) as nat) + requests_in_file(
            files,
            around,
            upto - 1,
            files[upto - 1].imports.len(),
        )
    }
}

/// What resolving a specifier came to.
#[derive(Debug, Clone, PartialEq, Eq)]
pub enum Resolution {
    /// The resolver found a file, at an absolute path.
    Found(String),
    /// The resolver found nothing; what a plain look at relative paths found
    /// instead, below the working directory.
    Fallback(Option<String>),
}

/// Whether a resolution leads to a file of the workspace, and to which: the
/// components of its path below the working directory.
pub open spec fn resolved_components(cwd: Seq<char>, resolution: Resolution) -> Option<
    Seq<Seq<char>>,
> {
    match resolution {
        Resolution::Found(path) => if is_below(path@, cwd) {
            Some(components(path@).skip(components(cwd).len() as int))
        } else {
            None
        },
        Resolution::Fallback(Some(path)) => Some(components(path@)),
        Resolution::Fallback(None) => None,
    }
}

/// The file of the workspace that a resolution leads to.
pub fn resolved_file(cwd: &str, resolution: &Resolution) -> (r: Option<String>)
    ensures
        match r {
            Some(path) => resolved_components(cwd@, *resolution) == Some(components(path@)),
            None => resolved_components(cwd@, *resolution) is None,
        },
{
    match resolution {
        Resolution::Found(path) => strip_path_prefix(path.as_str(), cwd),
        Resolution::Fallback(found) => match found {
            Some(path) => Some(path.clone()),
            None => None,
        },
    }
}

/// The importer that import `j` of file `i` is.
pub open spec fn importer_of(files: Seq<AnalyzedView>, i: int, j: int) -> ImporterView {
    let import = files[i].imports[j];
    ImporterView {
        importing_file: files[i].relative_path,
        local_name: import.local_name,
        from_module: import.from_module,
        is_dynamic: import.is_dynamic,
    }
}

/// The index of the first `upto` requests, as they were resolved.
pub open spec fn indexed(
    files: Seq<AnalyzedView>,
    cwd: Seq<char>,
    requests: Seq<RequestView>,
    resolutions: Seq<Resolution>,
    upto: nat,
) -> Map<(Seq<char>, Seq<char>), Seq<ImporterView>>
    decreases upto,
{
    if upto == 0 {
        Map::empty()
    } else {
        let before = indexed(files, cwd, requests, resolutions, (upto - 1) as nat);
        let request = requests[upto - 1];
        match resolved_components(cwd, resolutions[upto - 1]) {
            Some(list) => with_importer(
                before,
                (
                    crate::paths::path_text(list),
                    files[request.file].imports[request.import].imported_name,
                ),
                importer_of(files, request.file, request.import),
            ),
            None => before,
        }
    }
}

/// Each request is for an import of a file.
proof fn lemma_requests_valid(files: Seq<AnalyzedView>, around: Surroundings, upto: nat)
    requires
        upto <= files.len(),
    ensures
        forall|k: int|
            #![trigger requests_in(files, around, upto)[k]]
            0 <= k < requests_in(files, around, upto).len() ==> {
                let request = requests_in(files, around, upto)[k];
                0 <= request.file < files.len() && 0 <= request.import
                    < files[request.file].imports.len()
            },
    decreases upto,
{
    if upto > 0 {
        lemma_requests_valid(files, around, (upto - 1) as nat);
        let i = upto - 1;
        let n = files[i].imports.len();
        lemma_file_requests_valid(files, around, i, n);
        let before = requests_in(files, around, (upto - 1) as nat);
        let mine = requests_in_file(files, around, i, n);
        assert forall|k: int|
            #![trigger requests_in(files, around, upto)[k]]
            0 <= k < requests_in(files, around, upto).len() implies {
            let request = requests_in(files, around, upto)[k];
            0 <= request.file < files.len() && 0 <= request.import
                < files[request.file].imports.len()
        } by {
            if k < before.len() {
                assert(requests_in(files, around, upto)[k] == before[k]);
            } else {
                assert(requests_in(files, around, upto)[k] == mine[k - before.len()]);
            }
        }
    }
}

/// Each request of a file is for one of its imports.
proof fn lemma_file_requests_valid(
    files: Seq<AnalyzedView>,
    around: Surroundings,
    i: int,
    upto: nat,
)
    ensures
        forall|k: int|
            #![trigger requests_in_file(files, around, i, upto)[k]]
            0 <= k < requests_in_file(files, around, i, upto).len() ==> {
                let request = requests_in_file(files, around, i, upto)[k];
                request.file == i && 0 <= request.import < upto
            },
    decreases upto,
{
    if upto > 0 {
        lemma_file_requests_valid(files, around, i, (upto - 1) as nat);
        let before = requests_in_file(files, around, i, (upto - 1) as nat);
        assert forall|k: int|
            #![trigger requests_in_file(files, around, i, upto)[k]]
            0 <= k < requests_in_file(files, around, i, upto).len() implies {
            let request = requests_in_file(files, around, i, upto)[k];
            request.file == i && 0 <= request.import < upto
        } by {
            if k < before.len() {
                assert(requests_in_file(files, around, i, upto)[k] == before[k]);
            }
        }
    }
}

/// The requests for the imports of files.
pub fn import_requests(
    files: &Vec<AnalyzedFile>,
    cwd: &str,
    projects: &Vec<Project>,
    tsconfig_paths: &Vec<String>,
) -> (r: Vec<ImportRequest>)
    ensures
        request_views(r@) == requests_in(
            file_views(files@),
            (Surroundings { cwd: cwd@, projects: projects@, tsconfig_paths: tsconfig_paths@ }),
            files@.len(),
        ),
{
    let ghost views = file_views(files@);
    let ghost around = Surroundings {
        cwd: cwd@,
        projects: projects@,
        tsconfig_paths: tsconfig_paths@,
    };
    let mut r: Vec<ImportRequest> = Vec::new();
    let mut i: usize = 0;
    proof {
        assert(request_views(r@) =~= Seq::<RequestView>::empty());
    }
    while i < files.len()
        invariant
            views == file_views(files@),
            around == (Surroundings {
                cwd: cwd@,
                projects: projects@,
                tsconfig_paths: tsconfig_paths@,
            }),
            i <= files@.len(),
            request_views(r@) == requests_in(views, around, i as nat),
        decreases files@.len() - i,
    {
        let file: &AnalyzedFile = &files[i];
        let ghost before = request_views(r@);
        proof {
            assert(views[i as int] == file@);
            assert(before + requests_in_file(views, around, i as int, 0) =~= before);
        }
        let from_path: String = join_path(cwd, file.relative_path.as_str());
        let context: Option<String> = parent_of(from_path.as_str());
        let mut j: usize = 0;
        while j < file.imports.len()
            invariant
                views[i as int] == file@,
                around == (Surroundings {
                    cwd: cwd@,
                    projects: projects@,
                    tsconfig_paths: tsconfig_paths@,
                }),
                from_path@ == joined_path(cwd@, file.relative_path@),
                match context {
                    Some(parent) => parent_path(from_path@) == Some(parent@),
                    None => parent_path(from_path@) is None,
                },
                j <= file.imports@.len(),
                request_views(r@) == before + requests_in_file(views, around, i as int, j as nat),
            decreases file.imports@.len() - j,
        {
            let import: &Import = &file.imports[j];
            proof {
                assert(views[i as int].imports[j as int] == import@);
            }
            if let Some(parent) = &context {
                if is_workspace_specifier(import.from_module.as_str(), projects, tsconfig_paths) {
                    let request: ImportRequest = ImportRequest {
                        file: i,
                        import: j,
                        context: parent.clone(),
                        specifier: import.from_module.clone(),
                    };
                    let ghost current = r@;
                    r.push(request);
                    proof {
                        assert(request_views(r@) =~= request_views(current).push(request@));
                        assert(request_views(r@) =~= before + requests_in_file(
                            views,
                            around,
                            i as int,
                            (j + 1) as nat,
                        ));
                    }
                }
            }
            j = j + 1;
        }
        i = i + 1;
    }
    r
}

/// The index of files' imports, from how their requests were resolved.
pub fn index_imports(
    files: &Vec<AnalyzedFile>,
    cwd: &str,
    projects: &Vec<Project>,
    tsconfig_paths: &Vec<String>,
    resolutions: &Vec<Resolution>,
) -> (r: ImportIndex)
    requires
        resolutions@.len() == requests_in(
            file_views(files@),
            (Surroundings { cwd: cwd@, projects: projects@, tsconfig_paths: tsconfig_paths@ }),
            files@.len(),
        ).len(),
    ensures
        r@ == indexed(
            file_views(files@),
            cwd@,
            requests_in(
                file_views(files@),
                (Surroundings { cwd: cwd@, projects: projects@, tsconfig_paths: tsconfig_paths@ }),
                files@.len(),
            ),
            resolutions@,
            resolutions@.len(),
        ),
{
    let requests: Vec<ImportRequest> = import_requests(files, cwd, projects, tsconfig_paths);
    let ghost views = file_views(files@);
    let ghost wanted = request_views(requests@);
    proof {
        lemma_requests_valid(
            views,
            Surroundings { cwd: cwd@, projects: projects@, tsconfig_paths: tsconfig_paths@ },
            files@.len(),
        );
    }
    let mut index: ImportIndex = ImportIndex::new();
    let mut k: usize = 0;
    while k < requests.len()
        invariant
            views == file_views(files@),
            wanted == request_views(requests@),
            resolutions@.len() == requests@.len(),
            forall|n: int|
                #![trigger wanted[n]]
                0 <= n < wanted.len() ==> 0 <= wanted[n].file < views.len() && 0
                    <= wanted[n].import < views[wanted[n].file].imports.len(),
            k <= requests@.len(),
            index@ == indexed(views, cwd@, wanted, resolutions@, k as nat),
        decreases requests@.len() - k,
    {
        let request: &ImportRequest = &requests[k];
        proof {
            assert(wanted[k as int] == request@);
            assert(views[request.file as int] == files@[request.file as int]@);
        }
        if let Some(path) = resolved_file(cwd, &resolutions[k]) {
            let file: &AnalyzedFile = &files[request.file];
            let import: &Import = &file.imports[request.import];
            proof {
                assert(file@.imports[request.import as int] == import@);
            }
            let importer: Importer = Importer {
                importing_file: file.relative_path.clone(),
                local_name: import.local_name.clone(),
                from_module: import.from_module.clone(),
                is_dynamic: import.is_dynamic,
            };
            index = index.with(path.as_str(), import.imported_name.as_str(), importer);
        }
        k = k + 1;
    }
    index
}

/// Whether request `k` was resolved to a file and symbol, and is the given
/// importer.
pub open spec fn is_resolved_to(
    files: Seq<AnalyzedView>,
    cwd: Seq<char>,
    request: RequestView,
    resolution: Resolution,
    key: (Seq<char>, Seq<char>),
    importer: ImporterView,
) -> bool {
    match resolved_components(cwd, resolution) {
        Some(list) => key == (
            crate::paths::path_text(list),
            files[request.file].imports[request.import].imported_name,
        ) && importer == importer_of(files, request.file, request.import),
        None => false,
    }
}

/// The index lists an importer under a file and a symbol exactly where an
/// import of that symbol was resolved to that file.
pub proof fn law_index_is_reverse(
    files: Seq<AnalyzedView>,
    cwd: Seq<char>,
    requests: Seq<RequestView>,
    resolutions: Seq<Resolution>,
    upto: nat,
    key: (Seq<char>, Seq<char>),
    importer: ImporterView,
)
    requires
        upto <= requests.len(),
        requests.len() == resolutions.len(),
    ensures
        ({
            let index = indexed(files, cwd, requests, resolutions, upto);
            (index.dom().contains(key) && index[key].contains(importer)) == exists|k: int|
                0 <= k < upto && is_resolved_to(
                    files,
                    cwd,
                    #[trigger] requests[k],
                    resolutions[k],
                    key,
                    importer,
                )
        }),
    decreases upto,
{
    if upto > 0 {
        law_index_is_reverse(files, cwd, requests, resolutions, (upto - 1) as nat, key, importer);
        let before = indexed(files, cwd, requests, resolutions, (upto - 1) as nat);
        let index = indexed(files, cwd, requests, resolutions, upto);
        let request = requests[upto - 1];
        let resolution = resolutions[upto - 1];
        match resolved_components(cwd, resolution) {
            Some(list) => {
                let here = (
                    crate::paths::path_text(list),
                    files[request.file].imports[request.import].imported_name,
                );
                let mine = importer_of(files, request.file, request.import);
                let ahead = if before.dom().contains(here) {
                    before[here]
                } else {
                    Seq::empty()
                };
                assert(index =~= before.insert(here, ahead.push(mine))) by {
                    assert(seq![mine] =~= Seq::<ImporterView>::empty().push(mine));
                }
                if key == here {
                    let longer = ahead.push(mine);
                    assert(longer[ahead.len() as int] == mine);
                    if ahead.contains(importer) {
                        let k = choose|k: int| 0 <= k < ahead.len() && ahead[k] == importer;
                        assert(longer[k] == importer);
                    }
                    if longer.contains(importer) && importer != mine {
                        let k = choose|k: int| 0 <= k < longer.len() && longer[k] == importer;
                        assert(ahead[k] == importer);
                    }
                }
                if is_resolved_to(files, cwd, request, resolution, key, importer) {
                    assert(is_resolved_to(
                        files,
                        cwd,
                        requests[upto - 1],
                        resolutions[upto - 1],
                        key,
                        importer,
                    ));
                }
            },
            None => {},
        }
    }
}

} // verus!
