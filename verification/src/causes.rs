//! Why projects are affected: the log of causes, and their order in a report.
use crate::fx::{
    cause_names, causes_in, causes_of, in_order, no_causes, set_causes, sort_names, take_causes,
};
use crate::paths::{components, components_of};
use crate::text::{
    chars_of, codes, compare, lemma_precedes_transitive, numbers, precedes, texts, Compared,
};
use crate::types::{cause_views, AffectCause, AffectedProjectInfo, CauseView};
use rustc_hash::FxHashMap;
use vstd::prelude::*;

verus! {

/// A text in a key: each character's code point, counted from 1, and a 0 behind
/// the last.
pub open spec fn text_key(text: Seq<char>) -> Seq<int> {
    text.map_values(|c: char| c as u32 + 1).push(0)
}

/// How a component ranks before its text counts: the root, `.`, `..`, names.
pub open spec fn component_rank(component: Seq<char>) -> int {
    if component == seq!['/'] {
        1
    } else if component == seq!['.'] {
        2
    } else if component == seq!['.', '.'] {
        3
    } else {
        4
    }
}

/// Components in a key, each with its rank.
pub open spec fn components_key(list: Seq<Seq<char>>) -> Seq<int>
    decreases list.len(),
{
    if list.len() == 0 {
        Seq::empty()
    } else {
        components_key(list.drop_last()).push(component_rank(list.last())) + text_key(list.last())
    }
}

/// A path in a key: its components, and a 0 behind the last.
pub open spec fn path_key(path: Seq<char>) -> Seq<int> {
    components_key(components(path)).push(0)
}

/// An optional text in a key: none comes first.
pub open spec fn option_key(text: Option<Seq<char>>) -> Seq<int> {
    match text {
        Some(t) => seq![1int] + text_key(t),
        None => seq![0int],
    }
}

/// The key by which causes are ordered: the kind of cause, then its fields, one
/// behind the other. Causes with one key are the same.
pub open spec fn cause_key(cause: CauseView) -> Seq<int> {
    match cause {
        CauseView::DirectChange { file, symbol, line } => seq![0int] + path_key(file) + option_key(
            symbol,
        ) + seq![line as int],
        CauseView::ImportedSymbol { source_project, symbol, via_file, source_file } => seq![1int]
            + text_key(source_project) + text_key(symbol) + path_key(via_file) + path_key(
            source_file,
        ),
        CauseView::ReExported { through_file, symbol, source_file } => seq![2int] + path_key(
            through_file,
        ) + text_key(symbol) + path_key(source_file),
        CauseView::ImplicitDependency { depends_on } => seq![3int] + text_key(depends_on),
        CauseView::AssetChange { asset_file, referenced_in, line } => seq![4int] + path_key(
            asset_file,
        ) + path_key(referenced_in) + seq![line as int],
        CauseView::LockfileChange { dependency, importing_file } => seq![5int] + text_key(
            dependency,
        ) + path_key(importing_file),
        CauseView::GlobalInvalidation { file, named_input } => seq![6int] + path_key(file)
            + text_key(named_input),
    }
}

/// Writes a number into a key.
fn write_number(key: &mut Vec<u64>, n: u64)
    ensures
        numbers(final(key)@) == numbers(old(key)@).push(n as int),
{
    let ghost before = key@;
    key.push(n);
    proof {
        assert(numbers(key@) =~= numbers(before).push(n as int));
    }
}

/// Writes a text into a key.
fn write_text(key: &mut Vec<u64>, text: &str)
    ensures
        numbers(final(key)@) == numbers(old(key)@) + text_key(text@),
{
    let chars: Vec<char> = chars_of(text);
    let ghost before = numbers(key@);
    let ghost shifted = text@.map_values(|c: char| c as u32 + 1);
    let mut i: usize = 0;
    proof {
        assert(before + shifted.take(0) =~= before);
    }
    while i < chars.len()
        invariant
            chars@ == text@,
            shifted == text@.map_values(|c: char| c as u32 + 1),
            i <= chars@.len(),
            numbers(key@) == before + shifted.take(i as int),
        decreases chars@.len() - i,
    {
        let code: u32 = chars[i] as u32;
        write_number(key, code as u64 + 1);
        proof {
            assert(shifted.take(i + 1) =~= shifted.take(i as int).push(chars@[i as int] as u32 + 1));
            assert(numbers(key@) =~= before + shifted.take(i + 1));
        }
        i = i + 1;
    }
    write_number(key, 0);
    proof {
        assert(shifted.take(shifted.len() as int) =~= shifted);
        assert(numbers(key@) =~= before + text_key(text@));
    }
}

/// How a component ranks before its text counts.
fn rank_of(component: &str) -> (r: u64)
    ensures
        r as int == component_rank(component@),
{
    let chars: Vec<char> = chars_of(component);
    proof {
        if chars@.len() == 1 {
            assert(component@ =~= seq![chars@[0]]);
        }
        if chars@.len() == 2 {
            assert(component@ =~= seq![chars@[0], chars@[1]]);
        }
        assert(seq!['/'][0] == '/');
        assert(seq!['.'][0] == '.');
        assert(seq!['.', '.'][0] == '.' && seq!['.', '.'][1] == '.');
    }
    if chars.len() == 1 && chars[0] == '/' {
        1
    } else if chars.len() == 1 && chars[0] == '.' {
        2
    } else if chars.len() == 2 && chars[0] == '.' && chars[1] == '.' {
        3
    } else {
        4
    }
}

/// Writes a path into a key.
fn write_path(key: &mut Vec<u64>, path: &str)
    ensures
        numbers(final(key)@) == numbers(old(key)@) + path_key(path@),
{
    let list: Vec<String> = components_of(path);
    let ghost all = texts(list@);
    let ghost before = numbers(key@);
    let mut i: usize = 0;
    proof {
        assert(before + components_key(all.take(0)) =~= before);
    }
    while i < list.len()
        invariant
            all == texts(list@),
            i <= list@.len(),
            numbers(key@) == before + components_key(all.take(i as int)),
        decreases list@.len() - i,
    {
        proof {
            assert(all.take(i + 1).drop_last() =~= all.take(i as int));
            assert(all.take(i + 1).last() == list@[i as int]@);
        }
        write_number(key, rank_of(list[i].as_str()));
        write_text(key, list[i].as_str());
        proof {
            assert(numbers(key@) =~= before + components_key(all.take(i + 1)));
        }
        i = i + 1;
    }
    write_number(key, 0);
    proof {
        assert(all.take(all.len() as int) =~= all);
        assert(numbers(key@) =~= before + path_key(path@));
    }
}

/// Writes an optional text into a key.
fn write_option(key: &mut Vec<u64>, text: &Option<String>)
    ensures
        numbers(final(key)@) == numbers(old(key)@) + option_key(crate::types::text_in(*text)),
{
    let ghost before = numbers(key@);
    match text {
        Some(t) => {
            write_number(key, 1);
            write_text(key, t.as_str());
            proof {
                assert(numbers(key@) =~= before + option_key(Some(t@)));
            }
        },
        None => {
            write_number(key, 0);
            proof {
                assert(numbers(key@) =~= before + option_key(None));
            }
        },
    }
}

/// The key of a cause.
fn key_of(cause: &AffectCause) -> (key: Vec<u64>)
    ensures
        numbers(key@) == cause_key(cause@),
{
    let mut key: Vec<u64> = Vec::new();
    proof {
        assert(numbers(key@) =~= Seq::<int>::empty());
    }
    match cause {
        AffectCause::DirectChange { file, symbol, line } => {
            write_number(&mut key, 0);
            write_path(&mut key, file.as_str());
            write_option(&mut key, symbol);
            write_number(&mut key, *line as u64);
        },
        AffectCause::ImportedSymbol { source_project, symbol, via_file, source_file } => {
            write_number(&mut key, 1);
            write_text(&mut key, source_project.as_str());
            write_text(&mut key, symbol.as_str());
            write_path(&mut key, via_file.as_str());
            write_path(&mut key, source_file.as_str());
        },
        AffectCause::ReExported { through_file, symbol, source_file } => {
            write_number(&mut key, 2);
            write_path(&mut key, through_file.as_str());
            write_text(&mut key, symbol.as_str());
            write_path(&mut key, source_file.as_str());
        },
        AffectCause::ImplicitDependency { depends_on } => {
            write_number(&mut key, 3);
            write_text(&mut key, depends_on.as_str());
        },
        AffectCause::AssetChange { asset_file, referenced_in, line } => {
            write_number(&mut key, 4);
            write_path(&mut key, asset_file.as_str());
            write_path(&mut key, referenced_in.as_str());
            write_number(&mut key, *line as u64);
        },
        AffectCause::LockfileChange { dependency, importing_file } => {
            write_number(&mut key, 5);
            write_text(&mut key, dependency.as_str());
            write_path(&mut key, importing_file.as_str());
        },
        AffectCause::GlobalInvalidation { file, named_input } => {
            write_number(&mut key, 6);
            write_path(&mut key, file.as_str());
            write_text(&mut key, named_input.as_str());
        },
    }
    proof {
        assert(numbers(key@) =~= cause_key(cause@));
    }
    key
}

/// Whether causes stand in the order of their keys, each key once.
pub open spec fn in_cause_order(causes: Seq<CauseView>) -> bool {
    forall|i: int, j: int|
        #![trigger causes[i], causes[j]]
        0 <= i < j < causes.len() ==> precedes(cause_key(causes[i]), cause_key(causes[j]))
}

/// Whether a list holds a cause, or one with its key.
pub open spec fn has_key_of(causes: Seq<CauseView>, cause: CauseView) -> bool {
    exists|i: int| 0 <= i < causes.len() && cause_key(#[trigger] causes[i]) == cause_key(cause)
}

/// Whether `sorted` is what sorting `causes` and removing duplicates leaves: it
/// stands in order, takes its causes from the list, and leaves out none but
/// those that have the key of another.
pub open spec fn is_sorted_form(sorted: Seq<CauseView>, causes: Seq<CauseView>) -> bool {
    &&& in_cause_order(sorted)
    &&& forall|i: int| 0 <= i < sorted.len() ==> causes.contains(#[trigger] sorted[i])
    &&& forall|i: int| 0 <= i < causes.len() ==> has_key_of(sorted, #[trigger] causes[i])
}

/// The place of a key in a list of keys in order: behind those before it.
fn place_of(keys: &Vec<Vec<u64>>, key: &Vec<u64>) -> (r: (usize, bool))
    requires
        forall|i: int, j: int|
            #![trigger keys@[i], keys@[j]]
            0 <= i < j < keys@.len() ==> precedes(numbers(keys@[i]@), numbers(keys@[j]@)),
    ensures
        r.0 <= keys@.len(),
        forall|i: int|
            0 <= i < r.0 ==> precedes(numbers((#[trigger] keys@[i])@), numbers(key@)),
        r.1 ==> r.0 < keys@.len() && numbers(keys@[r.0 as int]@) == numbers(key@),
        !r.1 ==> forall|i: int|
            r.0 <= i < keys@.len() ==> precedes(numbers(key@), numbers((#[trigger] keys@[i])@)),
{
    let mut low: usize = 0;
    let mut high: usize = keys.len();
    while low < high
        invariant
            forall|i: int, j: int|
                #![trigger keys@[i], keys@[j]]
                0 <= i < j < keys@.len() ==> precedes(numbers(keys@[i]@), numbers(keys@[j]@)),
            low <= high <= keys@.len(),
            forall|i: int|
                0 <= i < low ==> precedes(numbers((#[trigger] keys@[i])@), numbers(key@)),
            forall|i: int|
                high <= i < keys@.len() ==> precedes(numbers(key@), numbers((#[trigger] keys@[i])@)),
        decreases high - low,
    {
        let middle: usize = low + (high - low) / 2;
        match compare(&keys[middle], key) {
            Compared::Less => {
                proof {
                    assert forall|i: int| 0 <= i < middle + 1 implies precedes(
                        numbers((#[trigger] keys@[i])@),
                        numbers(key@),
                    ) by {
                        if i < middle {
                            assert(precedes(numbers(keys@[i]@), numbers(keys@[middle as int]@)));
                            lemma_precedes_transitive(
                                numbers(keys@[i]@),
                                numbers(keys@[middle as int]@),
                                numbers(key@),
                            );
                        }
                    }
                }
                low = middle + 1;
            },
            Compared::Same => {
                proof {
                    assert forall|i: int| 0 <= i < middle implies precedes(
                        numbers((#[trigger] keys@[i])@),
                        numbers(key@),
                    ) by {
                        assert(precedes(numbers(keys@[i]@), numbers(keys@[middle as int]@)));
                    }
                }
                return (middle, true);
            },
            Compared::Greater => {
                proof {
                    assert forall|i: int| middle <= i < keys@.len() implies precedes(
                        numbers(key@),
                        numbers((#[trigger] keys@[i])@),
                    ) by {
                        if middle < i {
                            assert(precedes(numbers(keys@[middle as int]@), numbers(keys@[i]@)));
                            lemma_precedes_transitive(
                                numbers(key@),
                                numbers(keys@[middle as int]@),
                                numbers(keys@[i]@),
                            );
                        }
                    }
                }
                high = middle;
            },
        }
    }
    (low, false)
}

/// The causes in order, without duplicates; of causes with one key the first
/// stays.
pub fn sort_causes(causes: &Vec<AffectCause>) -> (r: Vec<AffectCause>)
    ensures
        is_sorted_form(cause_views(r@), cause_views(causes@)),
{
    let ghost all = cause_views(causes@);
    let mut r: Vec<AffectCause> = Vec::new();
    let mut keys: Vec<Vec<u64>> = Vec::new();
    let mut k: usize = 0;
    while k < causes.len()
        invariant
            all == cause_views(causes@),
            k <= causes@.len(),
            keys@.len() == r@.len(),
            forall|i: int|
                0 <= i < r@.len() ==> numbers((#[trigger] keys@[i])@) == cause_key(r@[i]@),
            forall|i: int, j: int|
                #![trigger keys@[i], keys@[j]]
                0 <= i < j < keys@.len() ==> precedes(numbers(keys@[i]@), numbers(keys@[j]@)),
            forall|i: int| 0 <= i < r@.len() ==> all.contains((#[trigger] r@[i])@),
            forall|i: int| 0 <= i < k ==> has_key_of(cause_views(r@), #[trigger] all[i]),
        decreases causes@.len() - k,
    {
        let key: Vec<u64> = key_of(&causes[k]);
        let (place, found) = place_of(&keys, &key);
        let ghost before = r@;
        let ghost old_keys = keys@;
        proof {
            assert(all[k as int] == causes@[k as int]@);
        }
        if !found {
            let cause: AffectCause = causes[k].copy();
            r.insert(place, cause);
            keys.insert(place, key);
            proof {
                assert(r@ == before.insert(place as int, cause));
                assert(keys@ == old_keys.insert(place as int, key));
                assert forall|i: int| 0 <= i < r@.len() implies numbers((#[trigger] keys@[i])@)
                    == cause_key(r@[i]@) by {
                    if i < place {
                        assert(keys@[i] == old_keys[i]);
                    } else if i > place {
                        assert(keys@[i] == old_keys[i - 1]);
                    }
                }
                assert forall|i: int, j: int|
                    #![trigger keys@[i], keys@[j]]
                    0 <= i < j < keys@.len() implies precedes(
                    numbers(keys@[i]@),
                    numbers(keys@[j]@),
                ) by {
                    let a = if i < place {
                        i
                    } else {
                        i - 1
                    };
                    let b = if j < place {
                        j
                    } else {
                        j - 1
                    };
                    if i != place {
                        assert(keys@[i] == old_keys[a]);
                    }
                    if j != place {
                        assert(keys@[j] == old_keys[b]);
                    }
                }
                assert forall|i: int| 0 <= i < r@.len() implies all.contains(
                    (#[trigger] r@[i])@,
                ) by {
                    if i < place {
                        assert(r@[i] == before[i]);
                    } else if i > place {
                        assert(r@[i] == before[i - 1]);
                    }
                }
                let views = cause_views(r@);
                assert forall|i: int| 0 <= i < k + 1 implies has_key_of(views, #[trigger] all[i]) by {
                    if i < k {
                        let old_views = cause_views(before);
                        assert(has_key_of(old_views, all[i]));
                        let n = choose|n: int|
                            0 <= n < old_views.len() && cause_key(#[trigger] old_views[n])
                                == cause_key(all[i]);
                        let m = if n < place {
                            n
                        } else {
                            n + 1
                        };
                        assert(r@[m] == before[n]);
                        assert(views[m] == old_views[n]);
                    } else {
                        assert(views[place as int] == cause@);
                    }
                }
            }
        } else {
            proof {
                let views = cause_views(r@);
                assert(views[place as int] == r@[place as int]@);
                assert(has_key_of(views, all[k as int]));
            }
        }
        k = k + 1;
    }
    proof {
        let views = cause_views(r@);
        assert forall|i: int, j: int|
            #![trigger views[i], views[j]]
            0 <= i < j < views.len() implies precedes(cause_key(views[i]), cause_key(views[j])) by {
            assert(views[i] == r@[i]@ && views[j] == r@[j]@);
            assert(precedes(numbers(keys@[i]@), numbers(keys@[j]@)));
        }
        assert forall|i: int| 0 <= i < views.len() implies all.contains(#[trigger] views[i]) by {
            assert(views[i] == r@[i]@);
        }
    }
    r
}

/// The causes of projects, as they come in.
pub struct CauseLog {
    causes: FxHashMap<String, Vec<AffectCause>>,
}

impl View for CauseLog {
    type V = Map<Seq<char>, Seq<CauseView>>;

    /// The causes of each project that has some, in the order of their coming.
    closed spec fn view(&self) -> Map<Seq<char>, Seq<CauseView>> {
        causes_in(&self.causes)
    }
}

/// The causes of a project, in the order of their coming.
pub open spec fn list_of(lists: Map<Seq<char>, Seq<CauseView>>, name: Seq<char>) -> Seq<CauseView> {
    if lists.dom().contains(name) {
        lists[name]
    } else {
        Seq::empty()
    }
}

/// The lists after causes came in for a project: they stand behind its earlier
/// ones.
pub open spec fn appended(
    lists: Map<Seq<char>, Seq<CauseView>>,
    name: Seq<char>,
    causes: Seq<CauseView>,
) -> Map<Seq<char>, Seq<CauseView>> {
    if causes.len() == 0 {
        lists
    } else {
        lists.insert(name, list_of(lists, name) + causes)
    }
}

/// The lists after causes came in for each of some projects.
pub open spec fn all_appended(
    lists: Map<Seq<char>, Seq<CauseView>>,
    projects: Seq<Seq<char>>,
    causes: Seq<CauseView>,
) -> Map<Seq<char>, Seq<CauseView>>
    decreases projects.len(),
{
    if projects.len() == 0 {
        lists
    } else {
        appended(all_appended(lists, projects.drop_last(), causes), projects.last(), causes)
    }
}

/// The pairs of a project and a cause of it.
pub open spec fn cause_pairs(lists: Map<Seq<char>, Seq<CauseView>>) -> Set<(Seq<char>, CauseView)> {
    Set::new(|pair: (Seq<char>, CauseView)| list_of(lists, pair.0).contains(pair.1))
}

/// All pairs of one of the projects and one of the causes.
pub open spec fn all_pairs(projects: Seq<Seq<char>>, causes: Seq<CauseView>) -> Set<
    (Seq<char>, CauseView),
> {
    Set::new(
        |pair: (Seq<char>, CauseView)| projects.contains(pair.0) && causes.contains(pair.1),
    )
}

/// The causes that explain each project: its own, or the spare ones where it has
/// none.
pub open spec fn explanations(
    lists: Map<Seq<char>, Seq<CauseView>>,
    spare: Map<Seq<char>, Seq<CauseView>>,
) -> Map<Seq<char>, Seq<CauseView>> {
    Map::new(
        |name: Seq<char>| list_of(lists, name).len() > 0 || list_of(spare, name).len() > 0,
        |name: Seq<char>|
            if list_of(lists, name).len() > 0 {
                list_of(lists, name)
            } else {
                list_of(spare, name)
            },
    )
}

impl CauseLog {
    /// A log of nothing.
    pub fn new() -> (r: CauseLog)
        ensures
            r@ == Map::<Seq<char>, Seq<CauseView>>::empty(),
    {
        let r: CauseLog = CauseLog { causes: no_causes() };
        proof {
            assert(r@ =~= Map::<Seq<char>, Seq<CauseView>>::empty());
        }
        r
    }

    /// Adds a cause for a project.
    fn record(&mut self, name: &str, cause: &AffectCause)
        ensures
            final(self)@ == appended(old(self)@, name@, seq![cause@]),
    {
        let ghost before = self@;
        let mut kept: Vec<AffectCause> = match take_causes(&mut self.causes, name) {
            Some(list) => list,
            None => Vec::new(),
        };
        let ghost earlier = kept@;
        proof {
            assert(cause_views(kept@) =~= list_of(before, name@));
        }
        let more: AffectCause = cause.copy();
        kept.push(more);
        proof {
            assert(cause_views(kept@) =~= cause_views(earlier) + seq![cause@]);
        }
        set_causes(&mut self.causes, name.to_owned(), kept);
        proof {
            assert(self@ =~= appended(before, name@, seq![cause@]));
        }
    }

    /// Adds each of the causes for each of the projects.
    pub fn record_all(&mut self, projects: &Vec<String>, causes: &Vec<AffectCause>)
        ensures
            final(self)@ == all_appended(old(self)@, texts(projects@), cause_views(causes@)),
            forall|name: Seq<char>| #[trigger]
                list_of(final(self)@, name) == list_of(old(self)@, name) + repeated(
                    cause_views(causes@),
                    occurrences(texts(projects@), name),
                ),
    {
        let ghost before = self@;
        let ghost names = texts(projects@);
        let ghost all = cause_views(causes@);
        let mut i: usize = 0;
        while i < projects.len()
            invariant
                names == texts(projects@),
                all == cause_views(causes@),
                i <= projects@.len(),
                self@ == all_appended(before, names.take(i as int), all),
            decreases projects@.len() - i,
        {
            let ghost outer = self@;
            let ghost name = projects@[i as int]@;
            let mut j: usize = 0;
            while j < causes.len()
                invariant
                    i < projects@.len(),
                    name == projects@[i as int]@,
                    all == cause_views(causes@),
                    j <= causes@.len(),
                    self@ == appended(outer, name, all.take(j as int)),
                decreases causes@.len() - j,
            {
                self.record(projects[i].as_str(), &causes[j]);
                proof {
                    let head = all.take(j as int);
                    let cause = causes@[j as int]@;
                    assert(all.take(j + 1) =~= head + seq![cause]);
                    assert(list_of(outer, name) + (head + seq![cause]) =~= (list_of(outer, name)
                        + head) + seq![cause]);
                    assert(list_of(outer, name) + head =~= list_of(
                        appended(outer, name, head),
                        name,
                    ));
                    assert(self@ =~= appended(outer, name, all.take(j + 1)));
                }
                j = j + 1;
            }
            proof {
                assert(all.take(all.len() as int) =~= all);
                assert(names.take(i + 1).drop_last() =~= names.take(i as int));
                assert(names.take(i + 1).last() == name);
            }
            i = i + 1;
        }
        proof {
            assert(names.take(names.len() as int) =~= names);
            assert forall|name: Seq<char>| #[trigger]
                list_of(self@, name) == list_of(before, name) + repeated(
                    all,
                    occurrences(names, name),
                ) by {
                law_causes_are_appended(before, names, all, name);
            }
        }
    }

    /// The log with the causes of projects that have none in it taken from
    /// another.
    pub fn completed(self, spare: CauseLog) -> (r: CauseLog)
        ensures
            cause_pairs(r@) == cause_pairs(explanations(self@, spare@)),
    {
        let ghost main = self@;
        let ghost other = spare@;
        let mut from: FxHashMap<String, Vec<AffectCause>> = self.causes;
        let mut r: CauseLog = spare;
        let names: Vec<String> = cause_names(&from);
        let ghost all = texts(names@);
        let mut i: usize = 0;
        while i < names.len()
            invariant
                all == texts(names@),
                all.to_set() == main.dom(),
                all.no_duplicates(),
                i <= names@.len(),
                forall|k: int|
                    i <= k < all.len() ==> causes_in(&from).contains_pair(
                        #[trigger] all[k],
                        main[all[k]],
                    ),
                forall|name: Seq<char>| #[trigger]
                    list_of(r@, name) == if all.take(i as int).contains(name) && list_of(
                        main,
                        name,
                    ).len() > 0 {
                        list_of(main, name)
                    } else {
                        list_of(other, name)
                    },
            decreases names@.len() - i,
        {
            let ghost before = r@;
            let ghost name = names@[i as int]@;
            proof {
                assert(all[i as int] == name);
                assert(all.to_set().contains(name));
                assert(all.take(i + 1) =~= all.take(i as int).push(name));
            }
            if let Some(list) = take_causes(&mut from, names[i].as_str()) {
                proof {
                    assert(cause_views(list@) == main[name]);
                    assert(cause_views(list@).len() == list@.len());
                }
                if list.len() > 0 {
                    set_causes(&mut r.causes, names[i].clone(), list);
                }
            }
            proof {
                let shorter = all.take(i as int);
                assert forall|n: Seq<char>| #[trigger]
                    list_of(r@, n) == if all.take(i + 1).contains(n) && list_of(main, n).len()
                        > 0 {
                        list_of(main, n)
                    } else {
                        list_of(other, n)
                    } by {
                    assert(list_of(before, n) == if shorter.contains(n) && list_of(main, n).len()
                        > 0 {
                        list_of(main, n)
                    } else {
                        list_of(other, n)
                    });
                    assert(all.take(i + 1).contains(n) == (shorter.contains(n) || n == name)) by {
                        lemma_name_pushed(shorter, name, n);
                    }
                }
            }
            i = i + 1;
        }
        proof {
            assert(all.take(all.len() as int) =~= all);
            let wanted = explanations(main, other);
            assert forall|name: Seq<char>| list_of(r@, name) == #[trigger] list_of(wanted, name) by {
                assert(all.to_set().contains(name) == all.contains(name));
                if list_of(main, name).len() > 0 {
                    assert(main.dom().contains(name));
                } else if list_of(other, name).len() == 0 {
                    assert(list_of(other, name) =~= Seq::<CauseView>::empty());
                }
            }
            assert forall|pair: (Seq<char>, CauseView)|
                cause_pairs(r@).contains(pair) == cause_pairs(wanted).contains(pair) by {
                assert(list_of(r@, pair.0) == list_of(wanted, pair.0));
            }
            assert(cause_pairs(r@) =~= cause_pairs(wanted));
        }
        r
    }
}

/// A name of a list with one more is one of the list or the new one.
proof fn lemma_name_pushed(names: Seq<Seq<char>>, last: Seq<char>, name: Seq<char>)
    ensures
        names.push(last).contains(name) == (names.contains(name) || name == last),
{
    let longer = names.push(last);
    assert(longer[names.len() as int] == last);
    if names.contains(name) {
        let k = choose|k: int| 0 <= k < names.len() && names[k] == name;
        assert(longer[k] == name);
    }
    if longer.contains(name) && name != last {
        let k = choose|k: int| 0 <= k < longer.len() && longer[k] == name;
        assert(names[k] == name);
    }
}

/// The causes of two lists, one behind the other, are those of either.
proof fn lemma_causes_joined(a: Seq<CauseView>, b: Seq<CauseView>, cause: CauseView)
    ensures
        (a + b).contains(cause) == (a.contains(cause) || b.contains(cause)),
{
    if a.contains(cause) {
        let k = choose|k: int| 0 <= k < a.len() && a[k] == cause;
        assert((a + b)[k] == cause);
    }
    if b.contains(cause) {
        let k = choose|k: int| 0 <= k < b.len() && b[k] == cause;
        assert((a + b)[a.len() + k] == cause);
    }
    if (a + b).contains(cause) {
        let k = choose|k: int| 0 <= k < (a + b).len() && (a + b)[k] == cause;
        if k < a.len() {
            assert(a[k] == cause);
        } else {
            assert(b[k - a.len()] == cause);
        }
    }
}

/// How often a name stands in a list.
pub open spec fn occurrences(names: Seq<Seq<char>>, name: Seq<char>) -> nat
    decreases names.len(),
{
    if names.len() == 0 {
        0
    } else if names.last() == name {
        occurrences(names.drop_last(), name) + 1
    } else {
        occurrences(names.drop_last(), name)
    }
}

/// The causes, a number of times one behind the other.
pub open spec fn repeated(causes: Seq<CauseView>, times: nat) -> Seq<CauseView>
    decreases times,
{
    if times == 0 {
        Seq::empty()
    } else {
        repeated(causes, (times - 1) as nat) + causes
    }
}

/// Causes that come in for projects stand behind the earlier ones, in their order,
/// once for each time that the project is named. Projects that are not named keep
/// what they have, and none is added.
pub proof fn law_causes_are_appended(
    lists: Map<Seq<char>, Seq<CauseView>>,
    projects: Seq<Seq<char>>,
    causes: Seq<CauseView>,
    name: Seq<char>,
)
    ensures
        list_of(all_appended(lists, projects, causes), name) == list_of(lists, name) + repeated(
            causes,
            occurrences(projects, name),
        ),
        list_of(lists, name).is_prefix_of(list_of(all_appended(lists, projects, causes), name)),
        !projects.contains(name) ==> all_appended(lists, projects, causes).dom().contains(name)
            == lists.dom().contains(name) && list_of(all_appended(lists, projects, causes), name)
            == list_of(lists, name),
        projects.contains(name) && projects.no_duplicates() ==> list_of(
            all_appended(lists, projects, causes),
            name,
        ) == list_of(lists, name) + causes,
    decreases projects.len(),
{
    let kept = list_of(lists, name);
    if projects.len() > 0 {
        let rest = projects.drop_last();
        let last = projects.last();
        law_causes_are_appended(lists, rest, causes, name);
        assert(projects =~= rest.push(last));
        lemma_name_pushed(rest, last, name);
        let before = all_appended(lists, rest, causes);
        let after = all_appended(lists, projects, causes);
        let times = occurrences(rest, name);
        if last == name {
            assert(list_of(after, name) =~= list_of(before, name) + causes);
            assert((kept + repeated(causes, times)) + causes =~= kept + (repeated(causes, times)
                + causes));
            if projects.no_duplicates() && rest.contains(name) {
                let k = choose|k: int| 0 <= k < rest.len() && rest[k] == name;
                assert(projects[k] == projects[rest.len() as int]);
            }
        } else {
            assert(list_of(after, name) == list_of(before, name));
            if projects.no_duplicates() {
                assert forall|i: int, j: int|
                    0 <= i < rest.len() && 0 <= j < rest.len() && i != j implies rest[i]
                    != rest[j] by {
                    assert(projects[i] != projects[j]);
                }
            }
        }
    } else {
        assert(kept + Seq::<CauseView>::empty() =~= kept);
    }
    assert(kept =~= list_of(all_appended(lists, projects, causes), name).subrange(
        0,
        kept.len() as int,
    ));
}

/// A project that causes came in for has causes.
pub proof fn lemma_has_causes(
    lists: Map<Seq<char>, Seq<CauseView>>,
    projects: Seq<Seq<char>>,
    causes: Seq<CauseView>,
    name: Seq<char>,
)
    requires
        projects.contains(name),
        causes.len() > 0,
    ensures
        list_of(all_appended(lists, projects, causes), name).len() > 0,
    decreases projects.len(),
{
    let rest = projects.drop_last();
    assert(projects =~= rest.push(projects.last()));
    lemma_name_pushed(rest, projects.last(), name);
    if name != projects.last() {
        lemma_has_causes(lists, rest, causes, name);
    }
}

/// Causes that come in for projects add the pairs of these.
pub proof fn lemma_pairs_appended(
    lists: Map<Seq<char>, Seq<CauseView>>,
    projects: Seq<Seq<char>>,
    causes: Seq<CauseView>,
)
    ensures
        cause_pairs(all_appended(lists, projects, causes)) == cause_pairs(lists) + all_pairs(
            projects,
            causes,
        ),
    decreases projects.len(),
{
    let after = all_appended(lists, projects, causes);
    if projects.len() > 0 {
        let rest = projects.drop_last();
        let last = projects.last();
        let before = all_appended(lists, rest, causes);
        lemma_pairs_appended(lists, rest, causes);
        assert(projects =~= rest.push(last));
        assert forall|pair: (Seq<char>, CauseView)|
            cause_pairs(after).contains(pair) == (cause_pairs(lists) + all_pairs(
                projects,
                causes,
            )).contains(pair) by {
            assert(cause_pairs(before).contains(pair) == (cause_pairs(lists) + all_pairs(
                rest,
                causes,
            )).contains(pair));
            lemma_name_pushed(rest, last, pair.0);
            lemma_causes_joined(list_of(before, pair.0), causes, pair.1);
            if causes.len() == 0 {
                assert(!causes.contains(pair.1));
            }
        }
    } else {
        assert(all_pairs(projects, causes) =~= Set::<(Seq<char>, CauseView)>::empty());
    }
    assert(cause_pairs(after) =~= cause_pairs(lists) + all_pairs(projects, causes));
}

/// The names in order; each of them stays, and none comes twice.
pub fn sorted(names: Vec<String>) -> (r: Vec<String>)
    requires
        texts(names@).no_duplicates(),
    ensures
        texts(r@).to_set() == texts(names@).to_set(),
        texts(r@).no_duplicates(),
        in_order(texts(r@)),
{
    let ghost before = texts(names@);
    let mut r: Vec<String> = names;
    sort_names(&mut r);
    proof {
        let after = texts(r@);
        before.to_multiset_ensures();
        after.to_multiset_ensures();
        before.lemma_multiset_has_no_duplicates();
        after.lemma_multiset_has_no_duplicates_conv();
        assert forall|name: Seq<char>| after.to_set().contains(name) == before.to_set().contains(
            name,
        ) by {
            assert(after.contains(name) <==> after.to_multiset().count(name) > 0);
            assert(before.contains(name) <==> before.to_multiset().count(name) > 0);
        }
        assert(after.to_set() =~= before.to_set());
    }
    r
}

/// Whether a project has a cause.
pub open spec fn has_cause(causes: Set<(Seq<char>, CauseView)>, name: Seq<char>) -> bool {
    exists|cause: CauseView| #[trigger] causes.contains((name, cause))
}

/// Whether a list holds the causes of a project in order, without duplicates:
/// each is a cause of the project, and each cause of the project is there or has
/// the key of one that is.
pub open spec fn are_causes_of(
    list: Seq<CauseView>,
    causes: Set<(Seq<char>, CauseView)>,
    name: Seq<char>,
) -> bool {
    &&& in_cause_order(list)
    &&& forall|i: int| 0 <= i < list.len() ==> causes.contains((name, #[trigger] list[i]))
    &&& forall|cause: CauseView| #[trigger]
        causes.contains((name, cause)) ==> has_key_of(list, cause)
}

/// The names of a list of projects with their causes.
pub open spec fn info_names(projects: Seq<AffectedProjectInfo>) -> Seq<Seq<char>> {
    projects.map_values(|info: AffectedProjectInfo| info.name@)
}

/// Whether a list reports all causes: the projects that have some, in the order
/// of their names, each once and with its causes.
pub open spec fn reports_all(
    projects: Seq<AffectedProjectInfo>,
    causes: Set<(Seq<char>, CauseView)>,
) -> bool {
    &&& in_order(info_names(projects))
    &&& info_names(projects).no_duplicates()
    &&& forall|name: Seq<char>| #[trigger]
        info_names(projects).contains(name) == has_cause(causes, name)
    &&& forall|i: int|
        0 <= i < projects.len() ==> are_causes_of(
            cause_views((#[trigger] projects[i]).causes@),
            causes,
            projects[i].name@,
        )
}

impl CauseLog {
    /// The projects that have causes, in the order of their names, each with its
    /// causes in order and without duplicates.
    pub fn report(&self) -> (r: Vec<AffectedProjectInfo>)
        ensures
            reports_all(r@, cause_pairs(self@)),
    {
        let names: Vec<String> = sorted(cause_names(&self.causes));
        let ghost map = self@;
        let ghost pairs = cause_pairs(self@);
        let ghost all = texts(names@);
        let mut r: Vec<AffectedProjectInfo> = Vec::new();
        let ghost mut from: Seq<int> = Seq::empty();
        let mut i: usize = 0;
        while i < names.len()
            invariant
                map == self@,
                pairs == cause_pairs(self@),
                all == texts(names@),
                all.to_set() == map.dom(),
                all.no_duplicates(),
                in_order(all),
                i <= names@.len(),
                from.len() == r@.len(),
                forall|k: int|
                    0 <= k < from.len() ==> 0 <= #[trigger] from[k] < i && all[from[k]]
                        == r@[k].name@ && are_causes_of(
                        cause_views(r@[k].causes@),
                        pairs,
                        r@[k].name@,
                    ) && has_cause(pairs, r@[k].name@),
                forall|k: int, l: int|
                    #![trigger from[k], from[l]]
                    0 <= k < l < from.len() ==> from[k] < from[l],
                forall|k: int|
                    0 <= k < i && has_cause(pairs, #[trigger] all[k]) ==> from.contains(k),
            decreases names@.len() - i,
        {
            let ghost name = names@[i as int]@;
            proof {
                assert(all[i as int] == name);
            }
            if let Some(list) = causes_of(&self.causes, names[i].as_str()) {
                let ghost views = cause_views(list@);
                if list.len() > 0 {
                    let info: AffectedProjectInfo = AffectedProjectInfo {
                        name: names[i].clone(),
                        causes: sort_causes(list),
                    };
                    r.push(info);
                    proof {
                        let sorted_views = cause_views(info.causes@);
                        assert(views[0] == list@[0]@);
                        assert(views.contains(views[0]));
                        assert(pairs.contains((name, views[0])));
                        assert(are_causes_of(sorted_views, pairs, name)) by {
                            assert forall|cause: CauseView| #[trigger]
                                pairs.contains((name, cause)) implies has_key_of(
                                sorted_views,
                                cause,
                            ) by {
                                let k = choose|k: int| 0 <= k < views.len() && views[k] == cause;
                                assert(has_key_of(sorted_views, views[k]));
                            }
                            assert forall|k: int|
                                0 <= k < sorted_views.len() implies pairs.contains(
                                (name, #[trigger] sorted_views[k]),
                            ) by {
                                assert(views.contains(sorted_views[k]));
                            }
                        }
                        let before = from;
                        from = from.push(i as int);
                        assert forall|k: int|
                            0 <= k < i + 1 && has_cause(
                                pairs,
                                #[trigger] all[k],
                            ) implies from.contains(k) by {
                            if k < i {
                                assert(before.contains(k));
                                let n = choose|n: int| 0 <= n < before.len() && before[n] == k;
                                assert(from[n] == k);
                            } else {
                                assert(from[before.len() as int] == k);
                            }
                        }
                    }
                } else {
                    proof {
                        if has_cause(pairs, name) {
                            let cause = choose|cause: CauseView| #[trigger]
                                pairs.contains((name, cause));
                            assert(views.contains(cause));
                            assert(views.len() == list@.len());
                        }
                    }
                }
            } else {
                proof {
                    assert(all.to_set().contains(name));
                }
            }
            i = i + 1;
        }
        proof {
            assert forall|name: Seq<char>| has_cause(pairs, name) implies #[trigger] all.contains(
                name,
            ) by {
                let cause = choose|cause: CauseView| #[trigger] pairs.contains((name, cause));
                assert(map.dom().contains(name));
                assert(all.to_set().contains(name));
            }
            lemma_report(r@, pairs, all, from);
        }
        r
    }
}

/// Names that are taken in order from names in order are in order.
proof fn lemma_listed_order(listed: Seq<Seq<char>>, all: Seq<Seq<char>>, from: Seq<int>)
    requires
        all.no_duplicates(),
        in_order(all),
        from.len() == listed.len(),
        forall|k: int|
            0 <= k < listed.len() ==> #[trigger] listed[k] == all[from[k]] && 0 <= from[k]
                < all.len(),
        forall|k: int, l: int|
            #![trigger from[k], from[l]]
            0 <= k < l < from.len() ==> from[k] < from[l],
    ensures
        in_order(listed),
        listed.no_duplicates(),
{
    assert forall|k: int, l: int|
        #![trigger listed[k], listed[l]]
        0 <= k < l < listed.len() implies !precedes(codes(listed[l]), codes(listed[k])) by {
        assert(from[k] < from[l]);
        assert(all[from[k]] == listed[k] && all[from[l]] == listed[l]);
    }
    assert forall|k: int, l: int|
        0 <= k < listed.len() && 0 <= l < listed.len() && k != l implies listed[k] != listed[l] by {
        if k < l {
            assert(from[k] < from[l]);
        } else {
            assert(from[l] < from[k]);
        }
        assert(all[from[k]] == listed[k] && all[from[l]] == listed[l]);
    }
}

/// A list of projects with their causes, taken in order from a list of names that
/// holds all that have causes, reports all causes.
proof fn lemma_report(
    projects: Seq<AffectedProjectInfo>,
    causes: Set<(Seq<char>, CauseView)>,
    all: Seq<Seq<char>>,
    from: Seq<int>,
)
    requires
        all.no_duplicates(),
        in_order(all),
        forall|name: Seq<char>| has_cause(causes, name) ==> #[trigger] all.contains(name),
        from.len() == projects.len(),
        forall|k: int|
            0 <= k < from.len() ==> 0 <= #[trigger] from[k] < all.len() && all[from[k]]
                == projects[k].name@ && are_causes_of(
                cause_views(projects[k].causes@),
                causes,
                projects[k].name@,
            ) && has_cause(causes, projects[k].name@),
        forall|k: int, l: int|
            #![trigger from[k], from[l]]
            0 <= k < l < from.len() ==> from[k] < from[l],
        forall|k: int|
            0 <= k < all.len() && has_cause(causes, #[trigger] all[k]) ==> from.contains(k),
    ensures
        reports_all(projects, causes),
{
    let listed = info_names(projects);
    assert forall|k: int| 0 <= k < listed.len() implies #[trigger] listed[k] == all[from[k]] && 0
        <= from[k] < all.len() by {
        assert(0 <= from[k]);
    }
    assert forall|name: Seq<char>| #[trigger] listed.contains(name) == has_cause(causes, name) by {
        if listed.contains(name) {
            let k = choose|k: int| 0 <= k < listed.len() && listed[k] == name;
            assert(0 <= from[k]);
        }
        if has_cause(causes, name) {
            assert(all.contains(name));
            let k = choose|k: int| 0 <= k < all.len() && all[k] == name;
            assert(has_cause(causes, all[k]));
            let n = choose|n: int| 0 <= n < from.len() && from[n] == k;
            assert(listed[n] == name);
        }
    }
    lemma_listed_order(listed, all, from);
    assert forall|k: int| 0 <= k < projects.len() implies are_causes_of(
        cause_views((#[trigger] projects[k]).causes@),
        causes,
        projects[k].name@,
    ) by {
        assert(0 <= from[k]);
    }
}

} // verus!
