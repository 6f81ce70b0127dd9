//! What is listed of a file, told from its nodes and symbols.
use crate::lists::{lemma_joined, lemma_pushed};
use crate::paths::{law_normal_text, same_path};
use crate::semantic::analyzer::{
    all_local_references, containers, exports_among, exports_symbol, exports_using, file_number,
    is_exported, local_references, member_accesses, names_around, reference_at, references_at,
    with_file, with_files, AnalyzedView, FileView,
};
use crate::semantic::syntax::NodeKind;
use crate::text::byte_len;
use crate::types::{ExportView, ReferenceView};
use crate::utils::{law_offset_round_trip, lemma_place_bounds, line_head, line_offset};
use vstd::prelude::*;

verus! {

/// The references to the first symbols of a name are those of each such symbol.
proof fn lemma_local_references(
    file: FileView,
    path: Seq<char>,
    name: Seq<char>,
    upto: nat,
    reference: ReferenceView,
)
    requires
        upto <= file.symbols.len(),
    ensures
        local_references(file, path, name, upto).contains(reference) == exists|s: int, o: int|
            0 <= s < upto && 0 <= o < file.symbols[s].references.len() && file.symbols[s].name
                == name && reference == #[trigger] reference_at(
                file,
                path,
                file.symbols[s].references[o],
            ),
    decreases upto,
{
    if upto > 0 {
        lemma_local_references(file, path, name, (upto - 1) as nat, reference);
        let before = local_references(file, path, name, (upto - 1) as nat);
        let symbol = file.symbols[upto - 1];
        let more = references_at(file, path, symbol.references);
        lemma_joined(before, more, reference);
        if more.contains(reference) {
            let o = choose|o: int| 0 <= o < more.len() && more[o] == reference;
            assert(reference == reference_at(file, path, file.symbols[upto - 1].references[o]));
        }
        if exists|s: int, o: int|
            0 <= s < upto && 0 <= o < file.symbols[s].references.len() && file.symbols[s].name
                == name && reference == #[trigger] reference_at(
                file,
                path,
                file.symbols[s].references[o],
            ) {
            let (s, o) = choose|s: int, o: int|
                0 <= s < upto && 0 <= o < file.symbols[s].references.len() && file.symbols[s].name
                    == name && reference == #[trigger] reference_at(
                    file,
                    path,
                    file.symbols[s].references[o],
                );
            if s == upto - 1 {
                assert(more[o] == reference);
            }
        }
    }
}

/// The references to a name in its file are all those of every symbol that has the
/// name, and no others.
pub proof fn law_local_references(
    file: FileView,
    path: Seq<char>,
    name: Seq<char>,
    reference: ReferenceView,
)
    ensures
        all_local_references(file, path, name).contains(reference) == exists|s: int, o: int|
            0 <= s < file.symbols.len() && 0 <= o < file.symbols[s].references.len()
                && file.symbols[s].name == name && reference == #[trigger] reference_at(
                file,
                path,
                file.symbols[s].references[o],
            ),
{
    lemma_local_references(file, path, name, file.symbols.len(), reference);
}

/// A reference stands in its file, on the line of its offset, behind as many
/// characters as its column says.
pub proof fn law_reference_place(file: FileView, path: Seq<char>, at: int, offset: usize)
    requires
        byte_len(file.source) < usize::MAX,
        0 <= at <= file.source.len(),
        byte_len(file.source.take(at)) == offset,
    ensures
        reference_at(file, path, offset).file_path == path,
        reference_at(file, path, offset).column == line_head(file.source, at).len(),
        line_offset(file.source, reference_at(file, path, offset).line as nat) + byte_len(
            line_head(file.source, at),
        ) == offset,
        reference_at(file, path, offset).line >= 1,
{
    law_offset_round_trip(file.source, at);
    lemma_place_bounds(file.source, at);
}

/// The reads of a property of a namespace are all the places where a member of that
/// name is taken of the namespace, in values and in types, and no others.
pub proof fn law_member_accesses(
    file: FileView,
    path: Seq<char>,
    namespace: Seq<char>,
    property: Seq<char>,
    upto: nat,
    reference: ReferenceView,
)
    requires
        upto <= file.nodes.len(),
    ensures
        member_accesses(file, path, namespace, property, upto).contains(reference) == exists|k: int|
            0 <= k < upto && ((#[trigger] file.nodes[k]).kind == NodeKind::StaticMember
                || file.nodes[k].kind == NodeKind::QualifiedName) && file.nodes[k].name == Some(
                property,
            ) && file.nodes[k].local == Some(namespace) && reference == reference_at(
                file,
                path,
                file.nodes[k].start,
            ),
    decreases upto,
{
    if upto > 0 {
        law_member_accesses(file, path, namespace, property, (upto - 1) as nat, reference);
        lemma_pushed(
            member_accesses(file, path, namespace, property, (upto - 1) as nat),
            reference_at(file, path, file.nodes[upto - 1].start),
            reference,
        );
    }
}

/// The declarations that hold references are those around each of them.
pub proof fn lemma_containers(
    file: FileView,
    references: Seq<ReferenceView>,
    upto: nat,
    name: Seq<char>,
)
    requires
        upto <= references.len(),
    ensures
        containers(file, references, upto).contains(name) == exists|k: int|
            0 <= k < upto && names_around(file, #[trigger] references[k]).contains(name),
    decreases upto,
{
    if upto > 0 {
        lemma_containers(file, references, (upto - 1) as nat, name);
        let last = names_around(file, references[upto - 1]);
        assert(last.to_set().contains(name) == last.contains(name));
    }
}

/// Whether an export of a file exports a declaration of it under a name, where the
/// declaration is not the given symbol and holds a reference to it.
pub open spec fn exports_user(file: AnalyzedView, e: int, symbol: Seq<char>, name: Seq<char>) -> bool {
    let export = file.exports[e];
    let local = if export.local_name is Some {
        export.local_name->0
    } else {
        export.exported_name
    };
    &&& export.exported_name == name
    &&& export.re_export_from is None
    &&& local != symbol
    &&& exists|r: ReferenceView| #[trigger]
        all_local_references(file.file_data, file.relative_path, symbol).contains(r)
            && names_around(file.file_data, r).contains(local)
}

/// The exports among declarations are those that export one of them.
proof fn lemma_exports_among(
    exports: Seq<ExportView>,
    symbol: Seq<char>,
    declarations: Set<Seq<char>>,
    upto: nat,
    name: Seq<char>,
)
    requires
        upto <= exports.len(),
    ensures
        exports_among(exports, symbol, declarations, upto).contains(name) == exists|e: int|
            0 <= e < upto && (#[trigger] exports[e]).exported_name == name
                && exports[e].re_export_from is None && ({
                let local = if exports[e].local_name is Some {
                    exports[e].local_name->0
                } else {
                    exports[e].exported_name
                };
                local != symbol && declarations.contains(local)
            }),
    decreases upto,
{
    if upto > 0 {
        lemma_exports_among(exports, symbol, declarations, (upto - 1) as nat, name);
        lemma_pushed(
            exports_among(exports, symbol, declarations, (upto - 1) as nat),
            exports[upto - 1].exported_name,
            name,
        );
    }
}

/// The exports that use a symbol are all those whose declaration, other than the
/// symbol's own, holds a reference to it, and no others.
pub proof fn law_exports_using(file: AnalyzedView, symbol: Seq<char>, name: Seq<char>)
    ensures
        exports_using(file, symbol).contains(name) == exists|e: int|
            0 <= e < file.exports.len() && #[trigger] exports_user(file, e, symbol, name),
{
    let references = all_local_references(file.file_data, file.relative_path, symbol);
    let held = containers(file.file_data, references, references.len());
    lemma_exports_among(file.exports, symbol, held, file.exports.len(), name);
    assert forall|e: int| 0 <= e < file.exports.len() implies #[trigger] exports_user(
        file,
        e,
        symbol,
        name,
    ) == (file.exports[e].exported_name == name && file.exports[e].re_export_from is None && ({
        let local = if file.exports[e].local_name is Some {
            file.exports[e].local_name->0
        } else {
            file.exports[e].exported_name
        };
        local != symbol && held.contains(local)
    })) by {
        let local = if file.exports[e].local_name is Some {
            file.exports[e].local_name->0
        } else {
            file.exports[e].exported_name
        };
        lemma_containers(file.file_data, references, references.len(), local);
        if exists|k: int|
            0 <= k < references.len() && names_around(
                file.file_data,
                #[trigger] references[k],
            ).contains(local) {
            let k = choose|k: int|
                0 <= k < references.len() && names_around(
                    file.file_data,
                    #[trigger] references[k],
                ).contains(local);
            assert(references.contains(references[k]));
        }
        if exists|r: ReferenceView| #[trigger]
            references.contains(r) && names_around(file.file_data, r).contains(local) {
            let r = choose|r: ReferenceView| #[trigger]
                references.contains(r) && names_around(file.file_data, r).contains(local);
            let k = choose|k: int| 0 <= k < references.len() && references[k] == r;
            assert(names_around(file.file_data, references[k]).contains(local));
        }
    }
    if exists|e: int|
        0 <= e < file.exports.len() && #[trigger] exports_user(file, e, symbol, name) {
        let e = choose|e: int|
            0 <= e < file.exports.len() && #[trigger] exports_user(file, e, symbol, name);
        assert(file.exports[e].exported_name == name);
    }
    if exports_using(file, symbol).contains(name) {
        let e = choose|e: int|
            0 <= e < file.exports.len() && (#[trigger] file.exports[e]).exported_name == name
                && file.exports[e].re_export_from is None && ({
                let local = if file.exports[e].local_name is Some {
                    file.exports[e].local_name->0
                } else {
                    file.exports[e].exported_name
                };
                local != symbol && held.contains(local)
            });
        assert(exports_user(file, e, symbol, name));
    }
}

/// A symbol is exported under its own name or under another.
pub proof fn law_is_exported(file: AnalyzedView, symbol: Seq<char>)
    ensures
        forall|e: int|
            0 <= e < file.exports.len() && ((#[trigger] file.exports[e]).exported_name == symbol
                || file.exports[e].local_name == Some(symbol)) ==> is_exported(file, symbol),
        (forall|e: int|
            0 <= e < file.exports.len() ==> (#[trigger] file.exports[e]).exported_name != symbol
                && file.exports[e].local_name != Some(symbol)) ==> !is_exported(file, symbol),
{
    assert forall|e: int|
        0 <= e < file.exports.len() && ((#[trigger] file.exports[e]).exported_name == symbol
            || file.exports[e].local_name == Some(symbol)) implies is_exported(file, symbol) by {
        assert(exports_symbol(file.exports[e], symbol));
    }
}

/// A file is found by any text of its path: the first file of that path, and none
/// only where there is none.
pub proof fn law_file_number(files: Seq<AnalyzedView>, path: Seq<char>, from: int)
    requires
        0 <= from,
    ensures
        match file_number(files, path, from) {
            Some(i) => {
                &&& from <= i < files.len()
                &&& same_path(files[i].relative_path, path)
                &&& forall|k: int|
                    from <= k < i ==> !same_path((#[trigger] files[k]).relative_path, path)
            },
            None => forall|k: int|
                from <= k < files.len() ==> !same_path(
                    (#[trigger] files[k]).relative_path,
                    path,
                ),
        },
    decreases files.len() - from,
{
    if from < files.len() {
        law_normal_text(files[from].relative_path, path);
        law_file_number(files, path, from + 1);
    }
}

/// Whether no two files have one path.
pub open spec fn has_each_path_once(files: Seq<AnalyzedView>) -> bool {
    forall|i: int, j: int|
        #![trigger files[i], files[j]]
        0 <= i < j < files.len() ==> !same_path(files[i].relative_path, files[j].relative_path)
}

/// A file that is added is held, in place of an earlier one of its path; the others
/// stay.
pub proof fn law_file_is_added(files: Seq<AnalyzedView>, file: AnalyzedView)
    requires
        has_each_path_once(files),
    ensures
        has_each_path_once(with_file(files, file)),
        forall|other: AnalyzedView| #[trigger]
            with_file(files, file).contains(other) == (other == file || (files.contains(other)
                && !same_path(other.relative_path, file.relative_path))),
{
    law_file_number(files, file.relative_path, 0);
    let after = with_file(files, file);
    match file_number(files, file.relative_path, 0) {
        Some(i) => {
            assert forall|k: int| 0 <= k < files.len() && k != i implies !same_path(
                (#[trigger] files[k]).relative_path,
                file.relative_path,
            ) by {
                if k < i {
                    assert(!same_path(files[k].relative_path, files[i].relative_path));
                } else {
                    assert(!same_path(files[i].relative_path, files[k].relative_path));
                }
            }
            assert(after[i] == file);
            assert forall|other: AnalyzedView| #[trigger] after.contains(other) == (other == file
                || (files.contains(other) && !same_path(
                other.relative_path,
                file.relative_path,
            ))) by {
                if after.contains(other) {
                    let k = choose|k: int| 0 <= k < after.len() && after[k] == other;
                    if k != i {
                        assert(files[k] == other);
                    }
                }
                if files.contains(other) && !same_path(other.relative_path, file.relative_path) {
                    let k = choose|k: int| 0 <= k < files.len() && files[k] == other;
                    assert(after[k] == other);
                }
            }
            assert forall|a: int, b: int|
                #![trigger after[a], after[b]]
                0 <= a < b < after.len() implies !same_path(
                after[a].relative_path,
                after[b].relative_path,
            ) by {
                if a != i {
                    assert(after[a] == files[a]);
                }
                if b != i {
                    assert(after[b] == files[b]);
                }
            }
        },
        None => {
            assert forall|other: AnalyzedView| #[trigger] after.contains(other) == (other == file
                || (files.contains(other) && !same_path(
                other.relative_path,
                file.relative_path,
            ))) by {
                lemma_pushed(files, file, other);
                if files.contains(other) {
                    let k = choose|k: int| 0 <= k < files.len() && files[k] == other;
                    assert(!same_path(files[k].relative_path, file.relative_path));
                }
            }
            assert forall|a: int, b: int|
                #![trigger after[a], after[b]]
                0 <= a < b < after.len() implies !same_path(
                after[a].relative_path,
                after[b].relative_path,
            ) by {
                assert(after[a] == files[a]);
                if b < files.len() {
                    assert(after[b] == files[b]);
                }
            }
        },
    }
}

/// Of the files that are added, the last of each path is held, and with them the
/// earlier files of other paths; each path is there once.
pub proof fn law_files_are_added(
    files: Seq<AnalyzedView>,
    more: Seq<AnalyzedView>,
    other: AnalyzedView,
)
    requires
        has_each_path_once(files),
    ensures
        has_each_path_once(with_files(files, more)),
        with_files(files, more).contains(other) == ((exists|k: int|
            0 <= k < more.len() && #[trigger] more[k] == other && forall|l: int|
                k < l < more.len() ==> !same_path(
                    (#[trigger] more[l]).relative_path,
                    other.relative_path,
                )) || (files.contains(other) && forall|l: int|
            0 <= l < more.len() ==> !same_path(
                (#[trigger] more[l]).relative_path,
                other.relative_path,
            ))),
    decreases more.len(),
{
    if more.len() > 0 {
        let rest = more.drop_last();
        let last = more.last();
        law_files_are_added(files, rest, other);
        law_file_is_added(with_files(files, rest), last);
        assert(with_files(files, more).contains(other) == (other == last || (with_files(
            files,
            rest,
        ).contains(other) && !same_path(other.relative_path, last.relative_path))));
        let newest = more.len() - 1;
        assert(more[newest] == last);
        let same = same_path(last.relative_path, other.relative_path);
        if exists|k: int|
            0 <= k < more.len() && #[trigger] more[k] == other && forall|l: int|
                k < l < more.len() ==> !same_path(
                    (#[trigger] more[l]).relative_path,
                    other.relative_path,
                ) {
            let k = choose|k: int|
                0 <= k < more.len() && #[trigger] more[k] == other && forall|l: int|
                    k < l < more.len() ==> !same_path(
                        (#[trigger] more[l]).relative_path,
                        other.relative_path,
                    );
            if k < newest {
                assert(rest[k] == other);
                assert forall|l: int| k < l < rest.len() implies !same_path(
                    (#[trigger] rest[l]).relative_path,
                    other.relative_path,
                ) by {
                    assert(more[l] == rest[l]);
                }
                assert(!same_path(more[newest].relative_path, other.relative_path));
            }
        }
        if exists|k: int|
            0 <= k < rest.len() && #[trigger] rest[k] == other && forall|l: int|
                k < l < rest.len() ==> !same_path(
                    (#[trigger] rest[l]).relative_path,
                    other.relative_path,
                ) {
            let k = choose|k: int|
                0 <= k < rest.len() && #[trigger] rest[k] == other && forall|l: int|
                    k < l < rest.len() ==> !same_path(
                        (#[trigger] rest[l]).relative_path,
                        other.relative_path,
                    );
            assert(more[k] == other);
            if !same {
                assert forall|l: int| k < l < more.len() implies !same_path(
                    (#[trigger] more[l]).relative_path,
                    other.relative_path,
                ) by {
                    if l < newest {
                        assert(rest[l] == more[l]);
                    }
                }
            }
        }
        if forall|l: int|
            0 <= l < more.len() ==> !same_path(
                (#[trigger] more[l]).relative_path,
                other.relative_path,
            ) {
            assert forall|l: int| 0 <= l < rest.len() implies !same_path(
                (#[trigger] rest[l]).relative_path,
                other.relative_path,
            ) by {
                assert(more[l] == rest[l]);
            }
            assert(!same_path(more[newest].relative_path, other.relative_path));
        }
        if !same && forall|l: int|
            0 <= l < rest.len() ==> !same_path(
                (#[trigger] rest[l]).relative_path,
                other.relative_path,
            ) {
            assert forall|l: int| 0 <= l < more.len() implies !same_path(
                (#[trigger] more[l]).relative_path,
                other.relative_path,
            ) by {
                if l < newest {
                    assert(rest[l] == more[l]);
                }
            }
        }
    }
}

} // verus!
