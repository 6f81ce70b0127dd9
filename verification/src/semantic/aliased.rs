//! What the exports of a package and the path aliases of a configuration stand for,
//! each told from the values that were read.
use super::exports_map::{
    alias_key, as_specific, begins_with_dot, by_specificity, entry_aliases, existing_ancestor,
    exports_aliases, exports_entries, first_source_target, has_subpaths, is_source_target,
    law_most_specific_first, subpath_entries, target_path, targets_in, targets_of_items,
    value_under, with_entry, AliasView, EntryView, JsonValue, Location,
};
use super::tsconfig_paths::{
    alias_prefix, alias_prefixes, collected, collected_parents, config_at, config_dir, extended,
    extended_path, lemma_with_path_targets, lemma_with_paths_targets, path_alias_views,
    targets_for, with_path, with_paths, Collected, PathAliasView, TsconfigExtends, TsconfigFile,
};
use crate::paths::{components, joined_path, json_path, normal, same_path};
use crate::spelled::{is_name, law_parent_and_name, with_last};
use crate::text::{byte_len, pieces, stands_at, texts};
use vstd::prelude::*;

verus! {

/// Whether entry `i` is the first under a key.
pub open spec fn is_first_key(entries: Seq<(String, JsonValue)>, key: Seq<char>, i: int) -> bool {
    &&& 0 <= i < entries.len()
    &&& entries[i].0@ == key
    &&& forall|k: int| 0 <= k < i ==> (#[trigger] entries[k]).0@ != key
}

/// Whether a list is what the targets under a key are: those of the first entry that
/// has the key, or none where no entry has it.
pub open spec fn are_targets_under(
    entries: Seq<(String, JsonValue)>,
    key: Seq<char>,
    list: Seq<Seq<char>>,
) -> bool {
    ||| exists|i: int| #[trigger]
        is_first_key(entries, key, i) && list == targets_in(entries[i].1)
    ||| list.len() == 0 && forall|k: int|
        0 <= k < entries.len() ==> (#[trigger] entries[k]).0@ != key
}

/// The entry under a key is the first that has it.
proof fn lemma_value_under(entries: Seq<(String, JsonValue)>, key: Seq<char>, from: int)
    requires
        0 <= from,
        forall|k: int| 0 <= k < from && k < entries.len() ==> (#[trigger] entries[k]).0@ != key,
    ensures
        match value_under(entries, key, from) {
            Some(i) => is_first_key(entries, key, i),
            None => forall|k: int| 0 <= k < entries.len() ==> (#[trigger] entries[k]).0@ != key,
        },
    decreases entries.len() - from,
{
    if from < entries.len() && entries[from].0@ != key {
        lemma_value_under(entries, key, from + 1);
    }
}

/// There is one list of targets under a key.
proof fn lemma_targets_under(
    entries: Seq<(String, JsonValue)>,
    key: Seq<char>,
    list: Seq<Seq<char>>,
)
    requires
        are_targets_under(entries, key, list),
    ensures
        super::exports_map::targets_under(entries, key) == list,
{
    lemma_value_under(entries, key, 0);
    match value_under(entries, key, 0) {
        Some(i) => {
            assert(entries[i].0@ == key);
            assert forall|j: int| #[trigger] is_first_key(entries, key, j) implies j == i by {
                if j < i {
                    assert(entries[j].0@ != key);
                }
                if i < j {
                    assert(entries[i].0@ != key);
                }
            }
        },
        None => {
            assert forall|j: int| !#[trigger] is_first_key(entries, key, j) by {
                if 0 <= j < entries.len() {
                    assert(entries[j].0@ != key);
                }
            }
            assert(list =~= Seq::<Seq<char>>::empty());
        },
    }
}

/// The targets of items are those of each, one behind the other.
proof fn lemma_targets_of_items(items: Seq<JsonValue>, upto: nat)
    requires
        upto <= items.len(),
    ensures
        targets_of_items(items, upto) == Seq::new(
            upto,
            |i: int| targets_in(items[i]),
        ).flatten_alt(),
    decreases upto,
{
    let lists = Seq::new(upto, |i: int| targets_in(items[i]));
    if upto > 0 {
        let fewer = (upto - 1) as nat;
        lemma_targets_of_items(items, fewer);
        assert(lists.drop_last() =~= Seq::new(fewer, |i: int| targets_in(items[i])));
    }
}

/// The targets of a text are the text, those of a list are those of its items in
/// order, and those of conditions are what stands under `import`, then under
/// `default`, then under `types`, whatever the order of the conditions.
pub proof fn law_targets(
    value: JsonValue,
    import: Seq<Seq<char>>,
    default: Seq<Seq<char>>,
    types: Seq<Seq<char>>,
)
    ensures
        match value {
            JsonValue::Text(text) => targets_in(value) == seq![text@],
            JsonValue::List(items) => targets_in(value) == Seq::new(
                items@.len(),
                |i: int| targets_in(items@[i]),
            ).flatten(),
            JsonValue::Object(entries) => are_targets_under(
                entries@,
                seq!['i', 'm', 'p', 'o', 'r', 't'],
                import,
            ) && are_targets_under(entries@, seq!['d', 'e', 'f', 'a', 'u', 'l', 't'], default)
                && are_targets_under(entries@, seq!['t', 'y', 'p', 'e', 's'], types)
                ==> targets_in(value) == import + default + types,
            JsonValue::Other => targets_in(value).len() == 0,
        },
{
    reveal_strlit("import");
    reveal_strlit("default");
    reveal_strlit("types");
    assert("import"@ =~= seq!['i', 'm', 'p', 'o', 'r', 't']);
    assert("default"@ =~= seq!['d', 'e', 'f', 'a', 'u', 'l', 't']);
    assert("types"@ =~= seq!['t', 'y', 'p', 'e', 's']);
    match value {
        JsonValue::List(items) => {
            lemma_targets_of_items(items@, items@.len());
            Seq::new(
                items@.len(),
                |i: int| targets_in(items@[i]),
            ).lemma_flatten_and_flatten_alt_are_equivalent();
        },
        JsonValue::Object(entries) => {
            if are_targets_under(entries@, "import"@, import) && are_targets_under(
                entries@,
                "default"@,
                default,
            ) && are_targets_under(entries@, "types"@, types) {
                lemma_targets_under(entries@, "import"@, import);
                lemma_targets_under(entries@, "default"@, default);
                lemma_targets_under(entries@, "types"@, types);
            }
        },
        _ => {},
    }
}

/// The entries of subpaths are those that have targets, in order.
proof fn lemma_subpath_entries(entries: Seq<(String, JsonValue)>, upto: nat)
    requires
        upto <= entries.len(),
    ensures
        subpath_entries(entries, upto) == entries.take(upto as int).filter(
            |e: (String, JsonValue)| targets_in(e.1).len() > 0,
        ).map_values(
            |e: (String, JsonValue)| EntryView { subpath: e.0@, targets: targets_in(e.1) },
        ),
    decreases upto,
{
    reveal(Seq::filter);
    let some = |e: (String, JsonValue)| targets_in(e.1).len() > 0;
    let made = |e: (String, JsonValue)| EntryView { subpath: e.0@, targets: targets_in(e.1) };
    if upto == 0 {
        assert(entries.take(0).filter(some).map_values(made) =~= Seq::<EntryView>::empty());
    } else {
        let fewer = (upto - 1) as nat;
        lemma_subpath_entries(entries, fewer);
        let all = entries.take(upto as int);
        assert(all.drop_last() =~= entries.take(fewer as int));
        assert(all.last() == entries[upto - 1]);
        assert(subpath_entries(entries, upto) =~= all.filter(some).map_values(made));
    }
}

/// A package whose exports name subpaths has an entry for each subpath with targets,
/// in order. Another has one entry, for itself, where there are targets at all.
pub proof fn law_exports_entries(exports: JsonValue)
    ensures
        ({
            let by_subpath = exports matches JsonValue::Object(entries) && exists|i: int|
                0 <= i < entries@.len() && (#[trigger] entries@[i]).0@.len() > 0
                    && entries@[i].0@[0] == '.';
            &&& by_subpath ==> exports_entries(exports) == exports->Object_0@.filter(
                |e: (String, JsonValue)| targets_in(e.1).len() > 0,
            ).map_values(
                |e: (String, JsonValue)| EntryView { subpath: e.0@, targets: targets_in(e.1) },
            )
            &&& !by_subpath && targets_in(exports).len() == 0 ==> exports_entries(exports).len()
                == 0
            &&& !by_subpath && targets_in(exports).len() > 0 ==> exports_entries(exports).len() == 1
                && exports_entries(exports)[0].subpath == seq!['.'] && exports_entries(
                exports,
            )[0].targets == targets_in(exports)
        }),
{
    reveal_strlit(".");
    assert("."@ =~= seq!['.']);
    if let JsonValue::Object(entries) = exports {
        assert(has_subpaths(entries@) == exists|i: int|
            0 <= i < entries@.len() && (#[trigger] entries@[i]).0@.len() > 0 && entries@[i].0@[0]
                == '.') by {
            if has_subpaths(entries@) {
                let i = choose|i: int|
                    0 <= i < entries@.len() && begins_with_dot((#[trigger] entries@[i]).0@);
                assert(entries@[i].0@[0] == '.');
            }
            if exists|i: int|
                0 <= i < entries@.len() && (#[trigger] entries@[i]).0@.len() > 0
                    && entries@[i].0@[0] == '.' {
                let i = choose|i: int|
                    0 <= i < entries@.len() && (#[trigger] entries@[i]).0@.len() > 0
                        && entries@[i].0@[0] == '.';
                assert(begins_with_dot(entries@[i].0@));
            }
        }
        lemma_subpath_entries(entries@, entries@.len());
        assert(entries@.take(entries@.len() as int) =~= entries@);
    }
}

/// Whether an entry has a given rank: with or without a wildcard, and how long it is.
pub open spec fn has_rank(entry: EntryView, wildcard: bool, len: nat) -> bool {
    entry.subpath.contains('*') == wildcard && byte_len(entry.subpath) == len
}

/// One more entry takes its place behind the others of its rank.
proof fn lemma_rank_kept(entries: Seq<EntryView>, entry: EntryView, wildcard: bool, len: nat)
    ensures
        with_entry(entries, entry).filter(|e: EntryView| has_rank(e, wildcard, len)) == if has_rank(
            entry,
            wildcard,
            len,
        ) {
            entries.filter(|e: EntryView| has_rank(e, wildcard, len)).push(entry)
        } else {
            entries.filter(|e: EntryView| has_rank(e, wildcard, len))
        },
    decreases entries.len(),
{
    reveal(Seq::filter);
    let same = |e: EntryView| has_rank(e, wildcard, len);
    let after = with_entry(entries, entry);
    if entries.len() == 0 {
        assert(after.drop_last() =~= Seq::<EntryView>::empty());
        assert(entries =~= Seq::<EntryView>::empty());
        reveal_with_fuel(Seq::filter, 2);
    } else if as_specific(entries.last().subpath, entry.subpath) {
        assert(after.drop_last() =~= entries);
    } else {
        let rest = entries.drop_last();
        lemma_rank_kept(rest, entry, wildcard, len);
        assert(after.drop_last() =~= with_entry(rest, entry));
    }
}

/// Entries are put in order without losing one, and entries of one rank keep their
/// order.
proof fn lemma_ranks_kept(entries: Seq<EntryView>, upto: nat, wildcard: bool, len: nat)
    requires
        upto <= entries.len(),
    ensures
        by_specificity(entries, upto).filter(|e: EntryView| has_rank(e, wildcard, len))
            == entries.take(upto as int).filter(|e: EntryView| has_rank(e, wildcard, len)),
    decreases upto,
{
    reveal(Seq::filter);
    let same = |e: EntryView| has_rank(e, wildcard, len);
    if upto == 0 {
        assert(entries.take(0) =~= Seq::<EntryView>::empty());
        assert(by_specificity(entries, 0) =~= Seq::<EntryView>::empty());
    } else {
        let fewer = (upto - 1) as nat;
        lemma_ranks_kept(entries, fewer, wildcard, len);
        lemma_rank_kept(by_specificity(entries, fewer), entries[upto - 1], wildcard, len);
        let all = entries.take(upto as int);
        assert(all.drop_last() =~= entries.take(fewer as int));
        assert(all.last() == entries[upto - 1]);
    }
}

/// Exact subpaths come before wildcards, and of either kind the longer before the
/// shorter; those that are alike in both keep their order, and none is lost.
pub proof fn law_specific_entries_first(
    entries: Seq<EntryView>,
    i: int,
    j: int,
    wildcard: bool,
    len: nat,
)
    requires
        0 <= i < j < entries.len(),
    ensures
        ({
            let list = by_specificity(entries, entries.len());
            &&& list.len() == entries.len()
            &&& list[i].subpath.contains('*') ==> list[j].subpath.contains('*')
            &&& list[i].subpath.contains('*') == list[j].subpath.contains('*') ==> byte_len(
                list[i].subpath,
            ) >= byte_len(list[j].subpath)
            &&& list.filter(|e: EntryView| has_rank(e, wildcard, len)) == entries.filter(
                |e: EntryView| has_rank(e, wildcard, len),
            )
        }),
{
    law_most_specific_first(entries, entries.len());
    lemma_ranks_kept(entries, entries.len(), wildcard, len);
    let list = by_specificity(entries, entries.len());
    assert(as_specific(list[i].subpath, list[j].subpath));
    assert(entries.take(entries.len() as int) =~= entries);
}

/// A package's own entry is known by exactly its name, and a subpath by the name with
/// the subpath behind it, exactly so unless it holds a wildcard. An entry that is no
/// subpath is known by nothing.
pub proof fn law_alias_key(name: Seq<char>, rest: Seq<char>, other: Seq<char>)
    ensures
        alias_key(name, seq!['.']) == Some(name.push('$')),
        rest.len() > 0 && !rest.contains('*') ==> alias_key(name, seq!['.', '/'] + rest) == Some(
            name.push('/') + rest.push('$'),
        ),
        rest.contains('*') ==> alias_key(name, seq!['.', '/'] + rest) == Some(
            name.push('/') + rest,
        ),
        alias_key(name, seq!['.', '/']) is None,
        other != seq!['.'] && !(other.len() >= 2 && other[0] == '.' && other[1] == '/')
            ==> alias_key(name, other) is None,
{
    reveal_strlit(".");
    reveal_strlit("./");
    reveal_strlit("$");
    reveal_strlit("/");
    assert("."@ =~= seq!['.']);
    assert("./"@ =~= seq!['.', '/']);
    assert("$"@ =~= seq!['$']);
    assert("/"@ =~= seq!['/']);
    let text = seq!['.', '/'] + rest;
    assert(name + "$"@ =~= name.push('$'));
    assert("./"@ =~= text.subrange(0, 2));
    assert(text.skip(2) =~= rest);
    assert(text.len() >= 2);
    assert(name + "/"@ + rest =~= name.push('/') + rest);
    assert(name + "/"@ + rest + "$"@ =~= name.push('/') + rest.push('$'));
    if rest.contains('*') {
        let k = choose|k: int| 0 <= k < rest.len() && rest[k] == '*';
        assert(rest.len() > 0);
    }
    assert(seq!['.', '/'].skip(2).len() == 0);
    assert("./"@ =~= seq!['.', '/'].subrange(0, 2));
    if "./"@.is_prefix_of(other) {
        assert(other[0] == "./"@[0]);
        assert(other[1] == "./"@[1]);
    }
}

/// A target leads to the place below the root of the package that follows its `./`.
/// One that does not start so, that names nothing, or that goes up leads nowhere.
pub proof fn law_target_path(root: Seq<char>, rest: Seq<char>, other: Seq<char>)
    ensures
        rest.len() > 0 && !pieces(rest, '/').contains(seq!['.', '.']) ==> target_path(
            root,
            seq!['.', '/'] + rest,
        ) == Some(joined_path(root, rest)),
        pieces(rest, '/').contains(seq!['.', '.']) ==> target_path(root, seq!['.', '/'] + rest)
            is None,
        target_path(root, seq!['.', '/']) is None,
        !(other.len() >= 2 && other[0] == '.' && other[1] == '/') ==> target_path(root, other)
            is None,
{
    reveal_strlit("..");
    reveal_strlit("./");
    assert(".."@ =~= seq!['.', '.']);
    assert("./"@ =~= seq!['.', '/']);
    let text = seq!['.', '/'] + rest;
    assert("./"@ =~= text.subrange(0, 2));
    assert(text.skip(2) =~= rest);
    assert(seq!['.', '/'].skip(2).len() == 0);
    assert("./"@ =~= seq!['.', '/'].subrange(0, 2));
    if "./"@.is_prefix_of(other) {
        assert(other[0] == "./"@[0]);
        assert(other[1] == "./"@[1]);
    }
}

/// Whether location `l` is the first that tells of a path.
pub open spec fn is_first_location(locations: Seq<Location>, path: Seq<char>, l: int) -> bool {
    &&& 0 <= l < locations.len()
    &&& locations[l].path@ == path
    &&& forall|k: int| 0 <= k < l ==> (#[trigger] locations[k]).path@ != path
}

/// What is known of a path is what the first location tells.
proof fn lemma_existing_ancestor(locations: Seq<Location>, path: Seq<char>, from: int)
    requires
        0 <= from,
        forall|k: int|
            0 <= k < from && k < locations.len() ==> (#[trigger] locations[k]).path@ != path,
    ensures
        match existing_ancestor(locations, path, from) {
            Some(existing) => exists|l: int| #[trigger]
                is_first_location(locations, path, l) && locations[l].existing@ == existing,
            None => forall|k: int|
                0 <= k < locations.len() ==> (#[trigger] locations[k]).path@ != path,
        },
    decreases locations.len() - from,
{
    if from < locations.len() {
        if locations[from].path@ != path {
            lemma_existing_ancestor(locations, path, from + 1);
        } else {
            assert(is_first_location(locations, path, from));
        }
    }
}

/// A path counts as a source exactly where it is known to exist, itself or an ancestor,
/// at or below the directory of the sources.
pub proof fn law_source_location(
    locations: Seq<Location>,
    canonical_source: Seq<char>,
    path: Seq<char>,
)
    ensures
        is_source_target(locations, canonical_source, path) == exists|l: int| #[trigger]
            is_first_location(locations, path, l) && components(canonical_source).is_prefix_of(
                components(locations[l].existing@),
            ),
{
    lemma_existing_ancestor(locations, path, 0);
    match existing_ancestor(locations, path, 0) {
        Some(existing) => {
            let l = choose|l: int| #[trigger]
                is_first_location(locations, path, l) && locations[l].existing@ == existing;
            assert forall|m: int| #[trigger] is_first_location(locations, path, m) implies m
                == l by {
                if m < l {
                    assert(locations[m].path@ != path);
                }
                if l < m {
                    assert(locations[l].path@ != path);
                }
            }
        },
        None => {
            assert forall|m: int| !#[trigger] is_first_location(locations, path, m) by {
                if 0 <= m < locations.len() {
                    assert(locations[m].path@ != path);
                }
            }
        },
    }
}

/// Whether a target leads to a path among the sources.
pub open spec fn leads_to_source(
    root: Seq<char>,
    locations: Seq<Location>,
    canonical_source: Seq<char>,
    target: Seq<char>,
    path: Seq<char>,
) -> bool {
    target_path(root, target) == Some(path) && is_source_target(locations, canonical_source, path)
}

/// Of the targets the first that leads to a source is taken, and none is where no
/// target does.
pub proof fn law_first_source_target(
    root: Seq<char>,
    targets: Seq<Seq<char>>,
    locations: Seq<Location>,
    canonical_source: Seq<char>,
    from: int,
)
    requires
        0 <= from,
    ensures
        match first_source_target(root, targets, locations, canonical_source, from) {
            Some(path) => exists|k: int|
                from <= k < targets.len() && leads_to_source(
                    root,
                    locations,
                    canonical_source,
                    #[trigger] targets[k],
                    path,
                ) && forall|l: int, p: Seq<char>|
                    from <= l < k ==> !#[trigger] leads_to_source(
                        root,
                        locations,
                        canonical_source,
                        targets[l],
                        p,
                    ),
            None => forall|l: int, p: Seq<char>|
                from <= l < targets.len() ==> !#[trigger] leads_to_source(
                    root,
                    locations,
                    canonical_source,
                    targets[l],
                    p,
                ),
        },
    decreases targets.len() - from,
{
    if from < targets.len() {
        law_first_source_target(root, targets, locations, canonical_source, from + 1);
        let taken = match target_path(root, targets[from]) {
            Some(path) => is_source_target(locations, canonical_source, path),
            None => false,
        };
        if taken {
            let path = target_path(root, targets[from])->0;
            assert(leads_to_source(root, locations, canonical_source, targets[from], path));
        } else {
            match first_source_target(root, targets, locations, canonical_source, from + 1) {
                Some(path) => {
                    let k = choose|k: int|
                        from + 1 <= k < targets.len() && leads_to_source(
                            root,
                            locations,
                            canonical_source,
                            #[trigger] targets[k],
                            path,
                        ) && forall|l: int, p: Seq<char>|
                            from + 1 <= l < k ==> !#[trigger] leads_to_source(
                                root,
                                locations,
                                canonical_source,
                                targets[l],
                                p,
                            );
                    assert(leads_to_source(root, locations, canonical_source, targets[k], path));
                },
                None => {},
            }
        }
    }
}

/// Whether an entry has both a key and a source that it leads to.
pub open spec fn gives_alias(
    name: Seq<char>,
    root: Seq<char>,
    locations: Seq<Location>,
    canonical_source: Seq<char>,
    entry: EntryView,
) -> bool {
    alias_key(name, entry.subpath) is Some && exists|k: int, path: Seq<char>|
        0 <= k < entry.targets.len() && #[trigger] leads_to_source(
            root,
            locations,
            canonical_source,
            entry.targets[k],
            path,
        )
}

/// An entry gives an alias exactly where a target is taken for it.
proof fn lemma_gives_alias(
    name: Seq<char>,
    root: Seq<char>,
    locations: Seq<Location>,
    canonical_source: Seq<char>,
    entry: EntryView,
)
    ensures
        gives_alias(name, root, locations, canonical_source, entry) == (alias_key(
            name,
            entry.subpath,
        ) is Some && first_source_target(root, entry.targets, locations, canonical_source, 0)
            is Some),
{
    law_first_source_target(root, entry.targets, locations, canonical_source, 0);
    if let Some(path) = first_source_target(root, entry.targets, locations, canonical_source, 0) {
        let k = choose|k: int|
            0 <= k < entry.targets.len() && leads_to_source(
                root,
                locations,
                canonical_source,
                #[trigger] entry.targets[k],
                path,
            );
        assert(leads_to_source(root, locations, canonical_source, entry.targets[k], path));
    }
}

/// Every entry that has a key and leads to a source gives an alias, in the order of
/// the entries, and no other does.
pub proof fn law_entry_aliases(
    name: Seq<char>,
    root: Seq<char>,
    entries: Seq<EntryView>,
    locations: Seq<Location>,
    canonical_source: Seq<char>,
    upto: nat,
)
    requires
        upto <= entries.len(),
    ensures
        entry_aliases(name, root, entries, locations, canonical_source, upto) == entries.take(
            upto as int,
        ).filter(
            |e: EntryView| gives_alias(name, root, locations, canonical_source, e),
        ).map_values(
            |e: EntryView|
                AliasView {
                    key: alias_key(name, e.subpath)->0,
                    target: first_source_target(root, e.targets, locations, canonical_source, 0)->0,
                },
        ),
    decreases upto,
{
    reveal(Seq::filter);
    let gives = |e: EntryView| gives_alias(name, root, locations, canonical_source, e);
    let made = |e: EntryView|
        AliasView {
            key: alias_key(name, e.subpath)->0,
            target: first_source_target(root, e.targets, locations, canonical_source, 0)->0,
        };
    if upto == 0 {
        assert(entries.take(0).filter(gives).map_values(made) =~= Seq::<AliasView>::empty());
    } else {
        let fewer = (upto - 1) as nat;
        law_entry_aliases(name, root, entries, locations, canonical_source, fewer);
        let all = entries.take(upto as int);
        assert(all.drop_last() =~= entries.take(fewer as int));
        assert(all.last() == entries[upto - 1]);
        lemma_gives_alias(name, root, locations, canonical_source, entries[upto - 1]);
        assert(entry_aliases(name, root, entries, locations, canonical_source, upto)
            =~= all.filter(gives).map_values(made));
    }
}

/// The aliases of a package are those of its entries, the most specific first.
pub proof fn law_exports_aliases(
    name: Seq<char>,
    root: Seq<char>,
    exports: JsonValue,
    locations: Seq<Location>,
    canonical_source: Seq<char>,
)
    ensures
        exports_aliases(name, root, exports, locations, canonical_source) == by_specificity(
            exports_entries(exports),
            exports_entries(exports).len(),
        ).filter(
            |e: EntryView| gives_alias(name, root, locations, canonical_source, e),
        ).map_values(
            |e: EntryView|
                AliasView {
                    key: alias_key(name, e.subpath)->0,
                    target: first_source_target(root, e.targets, locations, canonical_source, 0)->0,
                },
        ),
{
    let entries = exports_entries(exports);
    let list = by_specificity(entries, entries.len());
    law_most_specific_first(entries, entries.len());
    law_entry_aliases(name, root, list, locations, canonical_source, entries.len());
    assert(list.take(entries.len() as int) =~= list);
}

/// A configuration that is extended by a path is found from the directory of the one
/// that extends it; one that is named like a package is not looked for.
pub proof fn law_extended_path(dir: Seq<char>, specifier: Seq<char>)
    ensures
        extended_path(dir, specifier) is Some == (specifier.len() > 0 && (specifier[0] == '.'
            || specifier[0] == '/')),
        extended_path(dir, specifier) is Some ==> extended_path(dir, specifier)->0 == json_path(
            joined_path(dir, specifier),
        ),
{
}

/// The directory of a configuration is what stands before its name.
pub proof fn law_config_dir(path: Seq<char>, name: Seq<char>)
    requires
        path.len() > 0,
        is_name(name),
    ensures
        same_path(config_dir(with_last(path, name)), path),
        config_dir(name).len() == 0,
        config_dir(seq!['/'] + name) == seq!['/'],
        config_dir(seq!['/']) == seq!['.'],
{
    reveal_strlit(".");
    assert("."@ =~= seq!['.']);
    law_parent_and_name(path, name);
}

/// The prefix of an alias is what stands before its wildcard.
pub proof fn law_alias_prefix(prefix: Seq<char>, key: Seq<char>)
    ensures
        alias_prefix(prefix + seq!['/', '*']) == prefix,
        !(key.len() >= 2 && key[key.len() - 2] == '/' && key[key.len() - 1] == '*')
            ==> alias_prefix(key) == key,
{
    reveal_strlit("/*");
    assert("/*"@ =~= seq!['/', '*']);
    let text = prefix + seq!['/', '*'];
    assert(text.subrange(prefix.len() as int, prefix.len() as int + 2) =~= "/*"@);
    assert(stands_at(text, "/*"@, text.len() - 2));
    assert(text.take(text.len() - 2) =~= prefix);
    if key.len() >= 2 && stands_at(key, "/*"@, key.len() - 2) {
        let tail = key.subrange(key.len() - 2, key.len() as int);
        assert(tail[0] == key[key.len() - 2]);
        assert(tail[1] == key[key.len() - 1]);
    }
}

/// Whether file `i` is the first at a path.
pub open spec fn is_first_config(files: Seq<TsconfigFile>, path: Seq<char>, i: int) -> bool {
    &&& 0 <= i < files.len()
    &&& files[i].path@ == path
    &&& forall|k: int| 0 <= k < i ==> (#[trigger] files[k]).path@ != path
}

/// The configuration at a path is the first that has it.
proof fn lemma_config_at(files: Seq<TsconfigFile>, path: Seq<char>, from: int, i: int)
    requires
        is_first_config(files, path, i),
        0 <= from <= i,
    ensures
        config_at(files, path, from) == Some(i),
    decreases i - from,
{
    if from < i {
        lemma_config_at(files, path, from + 1, i);
    }
}

/// Aliases that are not set again stay.
proof fn lemma_untouched(
    paths: Seq<PathAliasView>,
    more: Seq<PathAliasView>,
    upto: nat,
    key: Seq<char>,
)
    requires
        upto <= more.len(),
        forall|k: int| 0 <= k < upto ==> (#[trigger] more[k]).key != key,
    ensures
        targets_for(with_paths(paths, more, upto), key, 0) == targets_for(paths, key, 0),
    decreases upto,
{
    if upto > 0 {
        lemma_untouched(paths, more, (upto - 1) as nat, key);
        lemma_with_path_targets(
            with_paths(paths, more, (upto - 1) as nat),
            more[upto - 1],
            key,
        );
    }
}

/// Whether alias `at` of a configuration is the last with its key.
pub open spec fn sets_last(files: Seq<TsconfigFile>, i: int, at: int) -> bool {
    &&& files[i].config is Some
    &&& 0 <= at < files[i].config->0.paths@.len()
    &&& forall|k: int|
        at < k < files[i].config->0.paths@.len() ==> (
        #[trigger] files[i].config->0.paths@[k]).key@ != files[i].config->0.paths@[at].key@
}

/// What a configuration sets itself counts, whatever was known before and whatever it
/// extends.
pub proof fn law_own_paths_win(
    files: Seq<TsconfigFile>,
    path: Seq<char>,
    before: Collected,
    depth: nat,
    i: int,
    at: int,
)
    requires
        is_first_config(files, path, i),
        sets_last(files, i, at),
        depth < 64,
        !before.visited.contains(normal(files[i].canonical@)),
    ensures
        targets_for(
            collected(files, path, before, depth).paths,
            files[i].config->0.paths@[at].key@,
            0,
        ) == Some(texts(files[i].config->0.paths@[at].targets@)),
{
    lemma_config_at(files, path, 0, i);
    let config = files[i].config->0;
    let own = path_alias_views(config.paths@);
    let entered = Collected {
        visited: before.visited.insert(normal(files[i].canonical@)),
        ..before
    };
    let parents = collected_parents(
        files,
        config_dir(path),
        texts(config.extends@),
        entered,
        depth,
        config.extends@.len(),
    );
    assert(own[at] == config.paths@[at]@);
    assert forall|k: int| at < k < own.len() implies (#[trigger] own[k]).key != own[at].key by {
        assert(own[k] == config.paths@[k]@);
    }
    lemma_with_paths_targets(parents.paths, own, own.len(), at);
}

/// What a configuration does not set itself comes from the last of those that it
/// extends and that sets it.
pub proof fn law_last_parent_wins(
    files: Seq<TsconfigFile>,
    path: Seq<char>,
    before: Collected,
    depth: nat,
    i: int,
    parent: Seq<char>,
    p: int,
    at: int,
)
    requires
        is_first_config(files, path, i),
        files[i].config is Some,
        depth + 1 < 64,
        !before.visited.contains(normal(files[i].canonical@)),
        files[i].config->0.extends@.len() > 0,
        extended_path(config_dir(path), files[i].config->0.extends@.last()@) == Some(parent),
        is_first_config(files, parent, p),
        sets_last(files, p, at),
        forall|k: int|
            0 <= k < files[i].config->0.paths@.len() ==> (
            #[trigger] files[i].config->0.paths@[k]).key@ != files[p].config->0.paths@[at].key@,
        !collected_parents(
            files,
            config_dir(path),
            texts(files[i].config->0.extends@),
            Collected { visited: before.visited.insert(normal(files[i].canonical@)), ..before },
            depth,
            (files[i].config->0.extends@.len() - 1) as nat,
        ).visited.contains(normal(files[p].canonical@)),
    ensures
        targets_for(
            collected(files, path, before, depth).paths,
            files[p].config->0.paths@[at].key@,
            0,
        ) == Some(texts(files[p].config->0.paths@[at].targets@)),
{
    lemma_config_at(files, path, 0, i);
    let config = files[i].config->0;
    let key = files[p].config->0.paths@[at].key@;
    let own = path_alias_views(config.paths@);
    let n = config.extends@.len();
    let entered = Collected {
        visited: before.visited.insert(normal(files[i].canonical@)),
        ..before
    };
    let dir = config_dir(path);
    let specifiers = texts(config.extends@);
    let earlier = collected_parents(files, dir, specifiers, entered, depth, (n - 1) as nat);
    let parents = collected_parents(files, dir, specifiers, entered, depth, n);
    assert(specifiers[n - 1] == config.extends@.last()@);
    assert(parents == collected(files, parent, earlier, depth + 1));
    law_own_paths_win(files, parent, earlier, depth + 1, p, at);
    assert forall|k: int| 0 <= k < own.len() implies (#[trigger] own[k]).key != key by {
        assert(own[k] == config.paths@[k]@);
    }
    lemma_untouched(parents.paths, own, own.len(), key);
}

/// A single parent that is another file hands down what the configuration does not set
/// itself.
pub proof fn law_parent_is_inherited(
    files: Seq<TsconfigFile>,
    path: Seq<char>,
    i: int,
    parent: Seq<char>,
    p: int,
    at: int,
)
    requires
        is_first_config(files, path, i),
        files[i].config is Some,
        files[i].config->0.extends@.len() == 1,
        extended_path(config_dir(path), files[i].config->0.extends@[0]@) == Some(parent),
        is_first_config(files, parent, p),
        !same_path(files[p].canonical@, files[i].canonical@),
        sets_last(files, p, at),
        forall|k: int|
            0 <= k < files[i].config->0.paths@.len() ==> (
            #[trigger] files[i].config->0.paths@[k]).key@ != files[p].config->0.paths@[at].key@,
    ensures
        targets_for(
            collected(
                files,
                path,
                Collected { visited: Set::empty(), paths: Seq::empty() },
                0,
            ).paths,
            files[p].config->0.paths@[at].key@,
            0,
        ) == Some(texts(files[p].config->0.paths@[at].targets@)),
{
    let before = Collected { visited: Set::<Seq<char>>::empty(), paths: Seq::empty() };
    crate::paths::law_normal_text(files[p].canonical@, files[i].canonical@);
    law_last_parent_wins(files, path, before, 0, i, parent, p, at);
}

/// A configuration that was visited before, by whatever path, gives nothing more, and
/// neither does one that is not there, or that stands too deep in a chain.
pub proof fn law_visited_once(
    files: Seq<TsconfigFile>,
    path: Seq<char>,
    before: Collected,
    depth: nat,
    i: int,
)
    ensures
        is_first_config(files, path, i) && before.visited.contains(normal(files[i].canonical@))
            ==> collected(files, path, before, depth) == before,
        (forall|k: int| 0 <= k < files.len() ==> (#[trigger] files[k]).path@ != path) ==> collected(
            files,
            path,
            before,
            depth,
        ) == before,
        depth >= 64 ==> collected(files, path, before, depth) == before,
{
    if is_first_config(files, path, i) {
        lemma_config_at(files, path, 0, i);
    }
    if forall|k: int| 0 <= k < files.len() ==> (#[trigger] files[k]).path@ != path {
        lemma_no_config(files, path, 0);
    }
}

/// Where no configuration has a path, none is found at it.
proof fn lemma_no_config(files: Seq<TsconfigFile>, path: Seq<char>, from: int)
    requires
        0 <= from,
        forall|k: int| 0 <= k < files.len() ==> (#[trigger] files[k]).path@ != path,
    ensures
        config_at(files, path, from) is None,
    decreases files.len() - from,
{
    if from < files.len() {
        lemma_no_config(files, path, from + 1);
    }
}

/// An alias that is set again stays in its place, and a new one comes at the end.
pub proof fn law_with_path(paths: Seq<PathAliasView>, path: PathAliasView, at: int)
    ensures
        0 <= at < paths.len() && paths[at].key == path.key && (forall|k: int|
            0 <= k < at ==> (#[trigger] paths[k]).key != path.key) ==> with_path(paths, path)
            == paths.update(at, path),
        (forall|k: int| 0 <= k < paths.len() ==> (#[trigger] paths[k]).key != path.key)
            ==> with_path(paths, path) == paths.push(path),
    decreases paths.len(),
{
    if paths.len() == 0 {
        assert(with_path(paths, path) =~= paths.push(path));
    } else {
        let rest = paths.skip(1);
        law_with_path(rest, path, at - 1);
        if paths[0].key == path.key {
            assert(with_path(paths, path) =~= paths.update(0, path));
        } else {
            if forall|k: int| 0 <= k < paths.len() ==> (#[trigger] paths[k]).key != path.key {
                assert forall|k: int| 0 <= k < rest.len() implies (#[trigger] rest[k]).key
                    != path.key by {
                    assert(paths[k + 1].key != path.key);
                }
                assert(with_path(paths, path) =~= paths.push(path));
            }
            if 0 <= at < paths.len() && paths[at].key == path.key && (forall|k: int|
                0 <= k < at ==> (#[trigger] paths[k]).key != path.key) {
                assert(at > 0);
                assert(rest[at - 1] == paths[at]);
                assert forall|k: int| 0 <= k < at - 1 implies (#[trigger] rest[k]).key
                    != path.key by {
                    assert(paths[k + 1].key != path.key);
                }
                assert(with_path(paths, path) =~= paths.update(at, path));
            }
        }
    }
}

/// Each alias has its prefix, in the order of the aliases.
pub proof fn law_alias_prefixes(paths: Seq<PathAliasView>, k: int)
    requires
        0 <= k < paths.len(),
    ensures
        alias_prefixes(paths).len() == paths.len(),
        alias_prefixes(paths)[k] == alias_prefix(paths[k].key),
{
}

/// What a configuration extends: the one specifier, or each of the list, in order.
pub proof fn law_extended(extends: TsconfigExtends, k: int)
    ensures
        match extends {
            TsconfigExtends::Single(specifier) => extended(extends) == seq![specifier@],
            TsconfigExtends::Multiple(specifiers) => extended(extends).len() == specifiers@.len()
                && (0 <= k < specifiers@.len() ==> extended(extends)[k] == specifiers@[k]@),
        },
{
}

} // verus!
