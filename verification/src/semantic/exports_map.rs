//! The `exports` of a package manifest, and the aliases that they make.
use crate::paths::{is_below, join_path, joined_path, starts_with_path};
use crate::text::{
    byte_len, chars_of, contains_char, lemma_byte_len, pieces, same, split, strip_prefix, texts,
    without_prefix,
};
use vstd::prelude::*;

verus! {

/// A JSON value, as far as the `exports` of a package can hold targets.
#[derive(Debug)]
pub enum JsonValue {
    /// A string.
    Text(String),
    /// An array.
    List(Vec<JsonValue>),
    /// An object, its keys in the order of the map that it was read into.
    Object(Vec<(String, JsonValue)>),
    /// Null, a boolean or a number.
    Other,
}

/// The value under a key of an object, from entry `from` on.
pub open spec fn value_under(entries: Seq<(String, JsonValue)>, key: Seq<char>, from: int) -> Option<
    int,
>
    decreases entries.len() - from,
{
    if from >= entries.len() {
        None
    } else if entries[from].0@ == key {
        Some(from)
    } else {
        value_under(entries, key, from + 1)
    }
}

/// The targets that a value names: a string itself, those of an array's items,
/// and of an object those under `import`, `default` and `types`, in this order.
pub open spec fn targets_in(value: JsonValue) -> Seq<Seq<char>>
    decreases value, 0nat,
{
    match value {
        JsonValue::Text(text) => seq![text@],
        JsonValue::List(items) => targets_of_items(items@, items@.len()),
        JsonValue::Object(entries) => targets_under(entries@, "import"@) + targets_under(
            entries@,
            "default"@,
        ) + targets_under(entries@, "types"@),
        JsonValue::Other => Seq::empty(),
    }
}

/// The targets of the first `upto` items of an array.
pub open spec fn targets_of_items(items: Seq<JsonValue>, upto: nat) -> Seq<Seq<char>>
    decreases items, upto,
{
    if upto == 0 || upto > items.len() {
        Seq::empty()
    } else {
        targets_of_items(items, (upto - 1) as nat) + targets_in(items[upto - 1])
    }
}

/// The targets under a key of an object.
pub open spec fn targets_under(entries: Seq<(String, JsonValue)>, key: Seq<char>) -> Seq<Seq<char>>
    decreases entries, 0nat,
{
    match value_under(entries, key, 0) {
        Some(i) => if 0 <= i < entries.len() {
            targets_in(entries[i].1)
        } else {
            Seq::empty()
        },
        None => Seq::empty(),
    }
}

/// Adds texts behind others.
fn push_texts(r: &mut Vec<String>, more: Vec<String>)
    ensures
        texts(final(r)@) == texts(old(r)@) + texts(more@),
{
    let ghost before = r@;
    let ghost added = more@;
    let mut more: Vec<String> = more;
    r.append(&mut more);
    proof {
        assert(texts(r@) =~= texts(before) + texts(added));
    }
}

/// The targets that a value names.
pub fn export_targets(value: &JsonValue) -> (r: Vec<String>)
    ensures
        texts(r@) == targets_in(*value),
    decreases value, 0nat,
{
    let mut r: Vec<String> = Vec::new();
    proof {
        assert(texts(r@) =~= Seq::<Seq<char>>::empty());
    }
    match value {
        JsonValue::Text(text) => {
            r.push(text.clone());
            proof {
                assert(texts(r@) =~= seq![text@]);
            }
        },
        JsonValue::List(items) => {
            let mut i: usize = 0;
            while i < items.len()
                invariant
                    *value is List,
                    value->List_0 == *items,
                    i <= items@.len(),
                    texts(r@) == targets_of_items(items@, i as nat),
                decreases items@.len() - i,
            {
                proof {
                    assert(decreases_to!(*value => value->List_0));
                    assert(decreases_to!(*items => items@));
                    assert(decreases_to!(items@ => items@[i as int]));
                }
                push_texts(&mut r, export_targets(&items[i]));
                i = i + 1;
            }
        },
        JsonValue::Object(entries) => {
            push_texts(&mut r, find_targets_under(entries, "import"));
            push_texts(&mut r, find_targets_under(entries, "default"));
            push_texts(&mut r, find_targets_under(entries, "types"));
            proof {
                assert(texts(r@) =~= targets_in(*value));
            }
        },
        JsonValue::Other => {},
    }
    r
}

/// The targets under a key of an object.
fn find_targets_under(entries: &Vec<(String, JsonValue)>, key: &str) -> (r: Vec<String>)
    ensures
        texts(r@) == targets_under(entries@, key@),
    decreases entries, 0nat,
{
    let mut i: usize = 0;
    while i < entries.len()
        invariant
            i <= entries@.len(),
            value_under(entries@, key@, 0) == value_under(entries@, key@, i as int),
        decreases entries@.len() - i,
    {
        if same(entries[i].0.as_str(), key) {
            return export_targets(&entries[i].1);
        }
        i = i + 1;
    }
    let none: Vec<String> = Vec::new();
    proof {
        assert(texts(none@) =~= Seq::<Seq<char>>::empty());
    }
    none
}

/// An entry of a package's exports: a subpath and its targets.
#[derive(Debug)]
pub struct ExportEntry {
    pub subpath: String,
    pub targets: Vec<String>,
}

/// What an [`ExportEntry`] stands for.
#[verifier::ext_equal]
pub struct EntryView {
    pub subpath: Seq<char>,
    pub targets: Seq<Seq<char>>,
}

impl View for ExportEntry {
    type V = EntryView;

    open spec fn view(&self) -> EntryView {
        EntryView { subpath: self.subpath@, targets: texts(self.targets@) }
    }
}

/// What a list of entries stands for.
pub open spec fn entry_views(entries: Seq<ExportEntry>) -> Seq<EntryView> {
    entries.map_values(|entry: ExportEntry| entry@)
}

/// Whether a text begins with a dot.
pub open spec fn begins_with_dot(text: Seq<char>) -> bool {
    text.len() > 0 && text[0] == '.'
}

/// Whether an object's keys are subpaths: one of them begins with a dot.
pub open spec fn has_subpaths(entries: Seq<(String, JsonValue)>) -> bool {
    exists|i: int| 0 <= i < entries.len() && begins_with_dot((#[trigger] entries[i]).0@)
}

/// The subpaths among the first `upto` keys of an object that have targets.
pub open spec fn subpath_entries(entries: Seq<(String, JsonValue)>, upto: nat) -> Seq<EntryView>
    decreases upto,
{
    if upto == 0 {
        Seq::empty()
    } else {
        let before = subpath_entries(entries, (upto - 1) as nat);
        let targets = targets_in(entries[upto - 1].1);
        if targets.len() == 0 {
            before
        } else {
            before.push(EntryView { subpath: entries[upto - 1].0@, targets })
        }
    }
}

/// The entries of a package's exports: its subpaths, or the package itself where
/// there are none.
pub open spec fn exports_entries(exports: JsonValue) -> Seq<EntryView> {
    let own = if targets_in(exports).len() == 0 {
        Seq::empty()
    } else {
        seq![EntryView { subpath: "."@, targets: targets_in(exports) }]
    };
    match exports {
        JsonValue::Object(entries) => if has_subpaths(entries@) {
            subpath_entries(entries@, entries@.len())
        } else {
            own
        },
        _ => own,
    }
}

/// Whether an object's keys are subpaths.
fn holds_subpaths(entries: &Vec<(String, JsonValue)>) -> (r: bool)
    ensures
        r == has_subpaths(entries@),
{
    let mut i: usize = 0;
    while i < entries.len()
        invariant
            i <= entries@.len(),
            forall|k: int| 0 <= k < i ==> !begins_with_dot((#[trigger] entries@[k]).0@),
        decreases entries@.len() - i,
    {
        let chars: Vec<char> = chars_of(entries[i].0.as_str());
        if chars.len() > 0 && chars[0] == '.' {
            return true;
        }
        i = i + 1;
    }
    false
}

/// The entries of a package's exports.
pub fn package_exports_entries(exports: &JsonValue) -> (r: Vec<ExportEntry>)
    ensures
        entry_views(r@) == exports_entries(*exports),
{
    let mut r: Vec<ExportEntry> = Vec::new();
    proof {
        assert(entry_views(r@) =~= Seq::<EntryView>::empty());
    }
    if let JsonValue::Object(entries) = exports {
        if holds_subpaths(entries) {
            let mut i: usize = 0;
            while i < entries.len()
                invariant
                    i <= entries@.len(),
                    entry_views(r@) == subpath_entries(entries@, i as nat),
                decreases entries@.len() - i,
            {
                let targets: Vec<String> = export_targets(&entries[i].1);
                proof {
                    assert(texts(targets@).len() == targets@.len());
                }
                if targets.len() > 0 {
                    let ghost before = r@;
                    let entry: ExportEntry = ExportEntry { subpath: entries[i].0.clone(), targets };
                    r.push(entry);
                    proof {
                        assert(entry_views(r@) =~= entry_views(before).push(entry@));
                    }
                }
                i = i + 1;
            }
            return r;
        }
    }
    let targets: Vec<String> = export_targets(exports);
    proof {
        assert(texts(targets@).len() == targets@.len());
    }
    if targets.len() > 0 {
        let entry: ExportEntry = ExportEntry { subpath: ".".to_owned(), targets };
        r.push(entry);
        proof {
            assert(entry_views(r@) =~= seq![entry@]);
        }
    }
    r
}

/// Whether one subpath is at least as specific as another: exact ones come
/// before those with a wildcard, longer ones before shorter ones.
pub open spec fn as_specific(a: Seq<char>, b: Seq<char>) -> bool {
    if a.contains('*') == b.contains('*') {
        byte_len(a) >= byte_len(b)
    } else {
        b.contains('*')
    }
}

/// The entries with one entry more, behind those that are at least as specific.
pub open spec fn with_entry(entries: Seq<EntryView>, entry: EntryView) -> Seq<EntryView>
    decreases entries.len(),
{
    if entries.len() == 0 {
        seq![entry]
    } else if as_specific(entries.last().subpath, entry.subpath) {
        entries.push(entry)
    } else {
        with_entry(entries.drop_last(), entry).push(entries.last())
    }
}

/// The first `upto` entries, the most specific first; those that are equally
/// specific stay in their order.
pub open spec fn by_specificity(entries: Seq<EntryView>, upto: nat) -> Seq<EntryView>
    decreases upto,
{
    if upto == 0 {
        Seq::empty()
    } else {
        with_entry(by_specificity(entries, (upto - 1) as nat), entries[upto - 1])
    }
}

/// Being as specific is a total order.
proof fn lemma_as_specific(a: Seq<char>, b: Seq<char>, c: Seq<char>)
    ensures
        as_specific(a, b) || as_specific(b, a),
        as_specific(a, b) && as_specific(b, c) ==> as_specific(a, c),
{
}

/// One entry more keeps the order.
proof fn lemma_with_entry(entries: Seq<EntryView>, entry: EntryView)
    requires
        forall|i: int, j: int|
            #![trigger entries[i], entries[j]]
            0 <= i < j < entries.len() ==> as_specific(entries[i].subpath, entries[j].subpath),
    ensures
        with_entry(entries, entry).len() == entries.len() + 1,
        forall|i: int, j: int|
            #![trigger with_entry(entries, entry)[i], with_entry(entries, entry)[j]]
            0 <= i < j < with_entry(entries, entry).len() ==> as_specific(
                with_entry(entries, entry)[i].subpath,
                with_entry(entries, entry)[j].subpath,
            ),
        forall|i: int|
            0 <= i < with_entry(entries, entry).len() ==> #[trigger] with_entry(entries, entry)[i]
                == entry || entries.contains(with_entry(entries, entry)[i]),
    decreases entries.len(),
{
    let after = with_entry(entries, entry);
    if entries.len() > 0 {
        let last = entries.last();
        let rest = entries.drop_last();
        assert(entries[entries.len() - 1] == last);
        assert forall|i: int, j: int|
            #![trigger rest[i], rest[j]]
            0 <= i < j < rest.len() implies as_specific(rest[i].subpath, rest[j].subpath) by {
            assert(entries[i] == rest[i] && entries[j] == rest[j]);
        }
        if as_specific(last.subpath, entry.subpath) {
            assert forall|i: int, j: int|
                #![trigger after[i], after[j]]
                0 <= i < j < after.len() implies as_specific(after[i].subpath, after[j].subpath) by {
                if j == entries.len() {
                    if i < entries.len() - 1 {
                        assert(as_specific(entries[i].subpath, entries[entries.len() - 1].subpath));
                    }
                    lemma_as_specific(entries[i].subpath, last.subpath, entry.subpath);
                } else {
                    assert(as_specific(entries[i].subpath, entries[j].subpath));
                }
            }
            assert forall|i: int| 0 <= i < after.len() implies #[trigger] after[i] == entry
                || entries.contains(after[i]) by {
                if i < entries.len() {
                    assert(after[i] == entries[i]);
                }
            }
        } else {
            lemma_with_entry(rest, entry);
            let shorter = with_entry(rest, entry);
            assert forall|i: int, j: int|
                #![trigger after[i], after[j]]
                0 <= i < j < after.len() implies as_specific(after[i].subpath, after[j].subpath) by {
                if j == shorter.len() {
                    assert(after[i] == shorter[i]);
                    if shorter[i] == entry {
                        lemma_as_specific(last.subpath, entry.subpath, last.subpath);
                    } else {
                        assert(rest.contains(shorter[i]));
                        let k = choose|k: int| 0 <= k < rest.len() && rest[k] == shorter[i];
                        assert(entries[k] == rest[k]);
                        assert(as_specific(entries[k].subpath, entries[entries.len() - 1].subpath));
                    }
                } else {
                    assert(after[i] == shorter[i] && after[j] == shorter[j]);
                }
            }
            assert forall|i: int| 0 <= i < after.len() implies #[trigger] after[i] == entry
                || entries.contains(after[i]) by {
                if i < shorter.len() {
                    assert(after[i] == shorter[i]);
                    if shorter[i] != entry {
                        let k = choose|k: int| 0 <= k < rest.len() && rest[k] == shorter[i];
                        assert(entries[k] == shorter[i]);
                    }
                }
            }
        }
    }
}

/// Of two entries the one that comes first is at least as specific; so an exact
/// subpath is tried before a wildcard that also fits it.
pub proof fn law_most_specific_first(entries: Seq<EntryView>, upto: nat)
    requires
        upto <= entries.len(),
    ensures
        by_specificity(entries, upto).len() == upto,
        forall|i: int, j: int|
            #![trigger by_specificity(entries, upto)[i], by_specificity(entries, upto)[j]]
            0 <= i < j < upto ==> as_specific(
                by_specificity(entries, upto)[i].subpath,
                by_specificity(entries, upto)[j].subpath,
            ),
        forall|i: int|
            0 <= i < upto ==> entries.contains(#[trigger] by_specificity(entries, upto)[i]),
    decreases upto,
{
    if upto > 0 {
        law_most_specific_first(entries, (upto - 1) as nat);
        let before = by_specificity(entries, (upto - 1) as nat);
        let entry = entries[upto - 1];
        lemma_with_entry(before, entry);
        assert forall|i: int| 0 <= i < upto implies entries.contains(
            #[trigger] by_specificity(entries, upto)[i],
        ) by {
            let item = with_entry(before, entry)[i];
            if item != entry {
                let k = choose|k: int| 0 <= k < before.len() && before[k] == item;
                assert(entries.contains(before[k]));
            }
        }
    }
}

/// How specific a subpath is: whether it has no wildcard, and its length.
fn export_specificity(subpath: &str) -> (r: (bool, usize))
    ensures
        r.0 == !subpath@.contains('*'),
        r.1 == byte_len(subpath@),
{
    let bytes: &[u8] = subpath.as_bytes();
    proof {
        lemma_byte_len(subpath@);
    }
    (!contains_char(subpath, '*'), bytes.len())
}

/// Whether one subpath is at least as specific as another.
fn is_as_specific(a: &str, b: &str) -> (r: bool)
    ensures
        r == as_specific(a@, b@),
{
    let left: (bool, usize) = export_specificity(a);
    let right: (bool, usize) = export_specificity(b);
    if left.0 == right.0 {
        left.1 >= right.1
    } else {
        left.0
    }
}

/// Inserting an entry at the place that its specificity gives it.
proof fn lemma_with_entry_at(entries: Seq<EntryView>, entry: EntryView, at: int)
    requires
        0 <= at <= entries.len(),
        at > 0 ==> as_specific(entries[at - 1].subpath, entry.subpath),
        forall|k: int|
            at <= k < entries.len() ==> !as_specific((#[trigger] entries[k]).subpath, entry.subpath),
    ensures
        with_entry(entries, entry) == entries.insert(at, entry),
    decreases entries.len() - at,
{
    if at == entries.len() {
        if at == 0 {
            assert(with_entry(entries, entry) =~= entries.insert(at, entry));
        } else {
            assert(with_entry(entries, entry) =~= entries.insert(at, entry));
        }
    } else {
        let rest = entries.drop_last();
        assert(entries[entries.len() - 1] == entries.last());
        assert forall|k: int| at <= k < rest.len() implies !as_specific(
            (#[trigger] rest[k]).subpath,
            entry.subpath,
        ) by {
            assert(rest[k] == entries[k]);
        }
        lemma_with_entry_at(rest, entry, at);
        assert(with_entry(entries, entry) =~= entries.insert(at, entry));
    }
}

/// The entries, the most specific first; those that are equally specific stay in
/// their order.
///
/// Alias matching goes by declaration order, and a broader prefix alias can stop
/// resolution before a more specific entry is tried.
fn sort_by_specificity(entries: Vec<ExportEntry>) -> (r: Vec<ExportEntry>)
    ensures
        entry_views(r@) == by_specificity(entry_views(entries@), entries@.len()),
{
    let ghost all = entry_views(entries@);
    let mut r: Vec<ExportEntry> = Vec::new();
    proof {
        assert(entry_views(r@) =~= Seq::<EntryView>::empty());
    }
    for entry in it: entries
        invariant
            it.seq() == entries@,
            all == entry_views(entries@),
            entry_views(r@) == by_specificity(all, it.index() as nat),
    {
        let ghost views = entry_views(r@);
        let mut at: usize = r.len();
        proof {
            assert(all[it.index() as int] == entry@);
            assert(views.len() == r@.len());
        }
        while at > 0 && !is_as_specific(r[at - 1].subpath.as_str(), entry.subpath.as_str())
            invariant
                views == entry_views(r@),
                at <= r@.len(),
                forall|k: int|
                    at <= k < views.len() ==> !as_specific(
                        (#[trigger] views[k]).subpath,
                        entry@.subpath,
                    ),
            decreases at,
        {
            proof {
                assert(views[at - 1] == r@[at - 1]@);
            }
            at = at - 1;
        }
        proof {
            if at > 0 {
                assert(views[at - 1] == r@[at - 1]@);
            }
            lemma_with_entry_at(views, entry@, at as int);
        }
        let ghost before = r@;
        r.insert(at, entry);
        proof {
            assert(entry_views(r@) =~= views.insert(at as int, entry@));
        }
    }
    r
}

/// The alias for a subpath of a package; `$` makes it match exactly. None for a
/// subpath that does not begin with `./` or goes no further.
pub open spec fn alias_key(package_name: Seq<char>, subpath: Seq<char>) -> Option<Seq<char>> {
    if subpath == "."@ {
        Some(package_name + "$"@)
    } else {
        match without_prefix(subpath, "./"@) {
            Some(rest) => if rest.len() == 0 {
                None
            } else if rest.contains('*') {
                Some(package_name + "/"@ + rest)
            } else {
                Some(package_name + "/"@ + rest + "$"@)
            },
            None => None,
        }
    }
}

/// The alias for a subpath of a package.
pub fn export_alias_key(package_name: &str, subpath: &str) -> (r: Option<String>)
    ensures
        match r {
            Some(key) => alias_key(package_name@, subpath@) == Some(key@),
            None => alias_key(package_name@, subpath@) is None,
        },
{
    let mut key: String = package_name.to_owned();
    if same(subpath, ".") {
        key.append("$");
        return Some(key);
    }
    match strip_prefix(subpath, "./") {
        Some(rest) => {
            let empty: bool = same(rest.as_str(), "");
            proof {
                reveal_strlit("");
                assert(""@ =~= Seq::<char>::empty());
                assert(empty == (rest@ =~= Seq::<char>::empty()));
            }
            if empty {
                return None;
            }
            key.append("/");
            key.append(rest.as_str());
            if !contains_char(rest.as_str(), '*') {
                key.append("$");
            }
            Some(key)
        },
        None => None,
    }
}

/// Where a target of a package's exports lies: below the project root. None for
/// a target that does not begin with `./`, goes no further or leads upwards.
pub open spec fn target_path(project_root: Seq<char>, target: Seq<char>) -> Option<Seq<char>> {
    match without_prefix(target, "./"@) {
        Some(rest) => if rest.len() == 0 || pieces(rest, '/').contains(".."@) {
            None
        } else {
            Some(joined_path(project_root, rest))
        },
        None => None,
    }
}

/// Where a target of a package's exports lies.
pub fn export_target_path(project_root: &str, target: &str) -> (r: Option<String>)
    ensures
        match r {
            Some(path) => target_path(project_root@, target@) == Some(path@),
            None => target_path(project_root@, target@) is None,
        },
{
    let rest: String = match strip_prefix(target, "./") {
        Some(rest) => rest,
        None => {
            return None;
        },
    };
    let empty: bool = same(rest.as_str(), "");
    proof {
        reveal_strlit("");
        assert(""@ =~= Seq::<char>::empty());
        assert(empty == (rest@ =~= Seq::<char>::empty()));
    }
    if empty {
        return None;
    }
    let segments: Vec<String> = split(rest.as_str(), '/');
    let ghost all = texts(segments@);
    let mut i: usize = 0;
    while i < segments.len()
        invariant
            all == texts(segments@),
            all == pieces(rest@, '/'),
            without_prefix(target@, "./"@) == Some(rest@),
            i <= segments@.len(),
            forall|k: int| 0 <= k < i ==> all[k] != ".."@,
        decreases segments@.len() - i,
    {
        proof {
            assert(all[i as int] == segments@[i as int]@);
        }
        if same(segments[i].as_str(), "..") {
            proof {
                assert(all.contains(all[i as int]));
            }
            return None;
        }
        i = i + 1;
    }
    Some(join_path(project_root, rest.as_str()))
}

/// Where a path leads on disk: its first ancestor that exists, in canonical form.
#[derive(Debug, Clone, PartialEq, Eq)]
pub struct Location {
    pub path: String,
    pub existing: String,
}

/// What is known on disk of a path, from location `from` on.
pub open spec fn existing_ancestor(locations: Seq<Location>, path: Seq<char>, from: int) -> Option<
    Seq<char>,
>
    decreases locations.len() - from,
{
    if from >= locations.len() {
        None
    } else if locations[from].path@ == path {
        Some(locations[from].existing@)
    } else {
        existing_ancestor(locations, path, from + 1)
    }
}

/// Whether a path leads below the source directory on disk.
pub open spec fn is_source_target(
    locations: Seq<Location>,
    canonical_source: Seq<char>,
    path: Seq<char>,
) -> bool {
    match existing_ancestor(locations, path, 0) {
        Some(existing) => is_below(existing, canonical_source),
        None => false,
    }
}

/// Whether a path leads below the source directory on disk.
fn is_under_source_target(locations: &Vec<Location>, canonical_source: &str, path: &str) -> (r: bool)
    ensures
        r == is_source_target(locations@, canonical_source@, path@),
{
    let mut i: usize = 0;
    while i < locations.len()
        invariant
            i <= locations@.len(),
            existing_ancestor(locations@, path@, 0) == existing_ancestor(
                locations@,
                path@,
                i as int,
            ),
        decreases locations@.len() - i,
    {
        if same(locations[i].path.as_str(), path) {
            return starts_with_path(locations[i].existing.as_str(), canonical_source);
        }
        i = i + 1;
    }
    false
}

/// The first target, from `from` on, that lies below the source directory.
pub open spec fn first_source_target(
    project_root: Seq<char>,
    targets: Seq<Seq<char>>,
    locations: Seq<Location>,
    canonical_source: Seq<char>,
    from: int,
) -> Option<Seq<char>>
    decreases targets.len() - from,
{
    if from >= targets.len() {
        None
    } else {
        match target_path(project_root, targets[from]) {
            Some(path) => if is_source_target(locations, canonical_source, path) {
                Some(path)
            } else {
                first_source_target(
                    project_root,
                    targets,
                    locations,
                    canonical_source,
                    from + 1,
                )
            },
            None => first_source_target(
                project_root,
                targets,
                locations,
                canonical_source,
                from + 1,
            ),
        }
    }
}

/// The first target that lies below the source directory.
fn find_source_target(
    project_root: &str,
    targets: &Vec<String>,
    locations: &Vec<Location>,
    canonical_source: &str,
) -> (r: Option<String>)
    ensures
        match r {
            Some(path) => first_source_target(
                project_root@,
                texts(targets@),
                locations@,
                canonical_source@,
                0,
            ) == Some(path@),
            None => first_source_target(
                project_root@,
                texts(targets@),
                locations@,
                canonical_source@,
                0,
            ) is None,
        },
{
    let ghost all = texts(targets@);
    let mut i: usize = 0;
    while i < targets.len()
        invariant
            all == texts(targets@),
            i <= targets@.len(),
            first_source_target(project_root@, all, locations@, canonical_source@, 0)
                == first_source_target(
                project_root@,
                all,
                locations@,
                canonical_source@,
                i as int,
            ),
        decreases targets@.len() - i,
    {
        proof {
            assert(all[i as int] == targets@[i as int]@);
        }
        if let Some(path) = export_target_path(project_root, targets[i].as_str()) {
            if is_under_source_target(locations, canonical_source, path.as_str()) {
                return Some(path);
            }
        }
        i = i + 1;
    }
    None
}

/// An alias of the resolver: a key and the path that it stands for.
#[derive(Debug, Clone, PartialEq, Eq)]
pub struct Alias {
    pub key: String,
    pub target: String,
}

/// What an [`Alias`] stands for.
#[verifier::ext_equal]
pub struct AliasView {
    pub key: Seq<char>,
    pub target: Seq<char>,
}

impl View for Alias {
    type V = AliasView;

    open spec fn view(&self) -> AliasView {
        AliasView { key: self.key@, target: self.target@ }
    }
}

/// What a list of aliases stands for.
pub open spec fn alias_views(aliases: Seq<Alias>) -> Seq<AliasView> {
    aliases.map_values(|alias: Alias| alias@)
}

/// The aliases that the first `upto` entries make: those that have a target
/// below the source directory, and a key.
pub open spec fn entry_aliases(
    package_name: Seq<char>,
    project_root: Seq<char>,
    entries: Seq<EntryView>,
    locations: Seq<Location>,
    canonical_source: Seq<char>,
    upto: nat,
) -> Seq<AliasView>
    decreases upto,
{
    if upto == 0 {
        Seq::empty()
    } else {
        let before = entry_aliases(
            package_name,
            project_root,
            entries,
            locations,
            canonical_source,
            (upto - 1) as nat,
        );
        let entry = entries[upto - 1];
        match (
            first_source_target(project_root, entry.targets, locations, canonical_source, 0),
            alias_key(package_name, entry.subpath),
        ) {
            (Some(target), Some(key)) => before.push(AliasView { key, target }),
            _ => before,
        }
    }
}

/// The aliases that a package's exports make, the most specific first.
pub open spec fn exports_aliases(
    package_name: Seq<char>,
    project_root: Seq<char>,
    exports: JsonValue,
    locations: Seq<Location>,
    canonical_source: Seq<char>,
) -> Seq<AliasView> {
    let entries = exports_entries(exports);
    entry_aliases(
        package_name,
        project_root,
        by_specificity(entries, entries.len()),
        locations,
        canonical_source,
        entries.len(),
    )
}

/// The aliases that a package's exports make.
pub fn package_exports_aliases(
    package_name: &str,
    project_root: &str,
    exports: &JsonValue,
    locations: &Vec<Location>,
    canonical_source: &str,
) -> (r: Vec<Alias>)
    ensures
        alias_views(r@) == exports_aliases(
            package_name@,
            project_root@,
            *exports,
            locations@,
            canonical_source@,
        ),
{
    let found: Vec<ExportEntry> = package_exports_entries(exports);
    let ghost unsorted = entry_views(found@);
    proof {
        assert(unsorted.len() == found@.len());
        law_most_specific_first(unsorted, unsorted.len());
    }
    let entries: Vec<ExportEntry> = sort_by_specificity(found);
    let ghost views = entry_views(entries@);
    let mut r: Vec<Alias> = Vec::new();
    let mut i: usize = 0;
    proof {
        assert(views.len() == entries@.len());
        assert(alias_views(r@) =~= Seq::<AliasView>::empty());
    }
    while i < entries.len()
        invariant
            views == entry_views(entries@),
            i <= entries@.len(),
            alias_views(r@) == entry_aliases(
                package_name@,
                project_root@,
                views,
                locations@,
                canonical_source@,
                i as nat,
            ),
        decreases entries@.len() - i,
    {
        let entry: &ExportEntry = &entries[i];
        proof {
            assert(views[i as int] == entry@);
        }
        if let Some(target) = find_source_target(
            project_root,
            &entry.targets,
            locations,
            canonical_source,
        ) {
            if let Some(key) = export_alias_key(package_name, entry.subpath.as_str()) {
                let ghost before = r@;
                let alias: Alias = Alias { key, target };
                r.push(alias);
                proof {
                    assert(alias_views(r@) =~= alias_views(before).push(alias@));
                }
            }
        }
        i = i + 1;
    }
    r
}

/// The paths of the first `upto` of some targets that name one.
pub open spec fn target_paths(project_root: Seq<char>, targets: Seq<Seq<char>>, upto: nat) -> Seq<
    Seq<char>,
>
    decreases upto,
{
    if upto == 0 {
        Seq::empty()
    } else {
        let before = target_paths(project_root, targets, (upto - 1) as nat);
        match target_path(project_root, targets[upto - 1]) {
            Some(path) => before.push(path),
            None => before,
        }
    }
}

/// The paths that the targets of the first `upto` entries name.
pub open spec fn candidate_paths(project_root: Seq<char>, entries: Seq<EntryView>, upto: nat) -> Seq<
    Seq<char>,
>
    decreases upto,
{
    if upto == 0 {
        Seq::empty()
    } else {
        let targets = entries[upto - 1].targets;
        candidate_paths(project_root, entries, (upto - 1) as nat) + target_paths(
            project_root,
            targets,
            targets.len(),
        )
    }
}

/// The paths whose place on disk decides on the aliases of a package's exports.
pub fn export_candidates(project_root: &str, exports: &JsonValue) -> (r: Vec<String>)
    ensures
        texts(r@) == candidate_paths(
            project_root@,
            exports_entries(*exports),
            exports_entries(*exports).len(),
        ),
{
    let entries: Vec<ExportEntry> = package_exports_entries(exports);
    let ghost views = entry_views(entries@);
    let mut r: Vec<String> = Vec::new();
    let mut i: usize = 0;
    proof {
        assert(views.len() == entries@.len());
        assert(texts(r@) =~= Seq::<Seq<char>>::empty());
    }
    while i < entries.len()
        invariant
            views == entry_views(entries@),
            i <= entries@.len(),
            texts(r@) == candidate_paths(project_root@, views, i as nat),
        decreases entries@.len() - i,
    {
        let entry: &ExportEntry = &entries[i];
        let ghost before = texts(r@);
        let ghost targets = texts(entry.targets@);
        proof {
            assert(views[i as int] == entry@);
            assert(before + target_paths(project_root@, targets, 0) =~= before);
        }
        let mut j: usize = 0;
        while j < entry.targets.len()
            invariant
                targets == texts(entry.targets@),
                j <= entry.targets@.len(),
                texts(r@) == before + target_paths(project_root@, targets, j as nat),
            decreases entry.targets@.len() - j,
        {
            proof {
                assert(targets[j as int] == entry.targets@[j as int]@);
            }
            if let Some(path) = export_target_path(project_root, entry.targets[j].as_str()) {
                let ghost current = r@;
                r.push(path);
                proof {
                    assert(texts(r@) =~= texts(current).push(path@));
                    assert(texts(r@) =~= before + target_paths(
                        project_root@,
                        targets,
                        (j + 1) as nat,
                    ));
                }
            }
            j = j + 1;
        }
        i = i + 1;
    }
    r
}

} // verus!
