//! What texts, paths and positions are, told by how they are put together.
use crate::paths::{
    components, counts, extension, head_component, is_below, is_plain, joined, joined_path,
    json_path, last_dot, last_name, lemma_components_valid, lemma_path_text, lemma_pieces_append,
    lemma_pieces_single, parent_path, path_text, plain_segments, same_path,
};
use crate::text::{
    byte_len, codes, holds_text, lemma_byte_len_grows, lemma_pieces_nonempty, pieces, stands_at,
    without_prefix, without_suffix,
};
use crate::utils::{
    is_source_path, lemma_all_bytes, lemma_piece_count, line_col, line_feeds, line_offset, reached,
};
use vstd::prelude::*;

verus! {

/// A text without the separator is one piece, and a separator starts another piece.
pub proof fn law_pieces(head: Seq<char>, piece: Seq<char>, separator: char)
    requires
        !piece.contains(separator),
    ensures
        pieces(piece, separator) == seq![piece],
        pieces(head.push(separator) + piece, separator) == pieces(head, separator).push(piece),
{
    lemma_pieces_single(piece, separator);
    lemma_pieces_append(head, piece, separator);
}

/// Whether a text can be a name in a path: not empty, not a single dot, without
/// slashes.
pub open spec fn is_name(name: Seq<char>) -> bool {
    &&& name.len() > 0
    &&& !(name.len() == 1 && name[0] == '.')
    &&& forall|i: int| 0 <= i < name.len() ==> #[trigger] name[i] != '/'
}

/// The text of a path with one more name behind it.
pub open spec fn with_last(path: Seq<char>, name: Seq<char>) -> Seq<char> {
    path.push('/') + name
}

/// How a path starts does not change with what is put behind it.
proof fn lemma_head_component(path: Seq<char>, name: Seq<char>)
    requires
        path.len() > 0,
        !name.contains('/'),
    ensures
        head_component(with_last(path, name)) == head_component(path),
{
    let text = with_last(path, name);
    lemma_pieces_append(path, name, '/');
    lemma_pieces_nonempty(path, '/');
    assert(text[0] == path[0]);
    assert(pieces(text, '/')[0] == pieces(path, '/')[0]);
}

/// A single dot is the text that holds just a dot.
proof fn lemma_dot(name: Seq<char>)
    ensures
        (name == seq!['.']) == (name.len() == 1 && name[0] == '.'),
{
    if name.len() == 1 && name[0] == '.' {
        assert(name =~= seq!['.']);
    }
}

/// A path is the names that its text is put together from: one more name is one more
/// component, and a slash or a dot behind it changes nothing. Alone, a name is its
/// own component, a slash is the root, and a dot stands for itself.
pub proof fn law_components(path: Seq<char>, name: Seq<char>)
    ensures
        is_name(name) ==> components(name) == seq![name],
        is_name(name) && path.len() > 0 ==> components(with_last(path, name)) == components(
            path,
        ).push(name),
        path.len() > 0 ==> components(path.push('/')) == components(path),
        path.len() > 0 ==> components(path.push('/').push('.')) == components(path),
        components(seq!['/']) == seq![seq!['/']],
        components(seq!['.']) == seq![seq!['.']],
        components(Seq::<char>::empty()).len() == 0,
        is_name(name) ==> components(seq!['/'] + name) == seq![seq!['/'], name],
{
    let empty = Seq::<char>::empty();
    let dot = seq!['.'];
    let slash = seq!['/'];
    reveal_with_fuel(plain_segments, 3);
    lemma_dot(name);
    if is_name(name) {
        assert(!name.contains('/'));
        lemma_pieces_single(name, '/');
        assert(pieces(name, '/').drop_last() =~= Seq::<Seq<char>>::empty());
        assert(counts(name));
        assert(components(name) =~= seq![name]);
        lemma_pieces_append(empty, name, '/');
        lemma_pieces_single(empty, '/');
        assert(empty.push('/') + name =~= slash + name);
        let list = pieces(slash + name, '/');
        assert(list == seq![empty].push(name));
        assert(list.drop_last() =~= seq![empty]);
        assert(seq![empty].drop_last() =~= Seq::<Seq<char>>::empty());
        assert(components(slash + name) =~= seq![slash, name]);
    }
    if path.len() > 0 {
        if is_name(name) {
            lemma_head_component(path, name);
            lemma_pieces_append(path, name, '/');
            let list = pieces(with_last(path, name), '/');
            assert(list.drop_last() =~= pieces(path, '/'));
            assert(components(with_last(path, name)) =~= components(path).push(name));
        }
        assert(!empty.contains('/'));
        lemma_head_component(path, empty);
        lemma_pieces_append(path, empty, '/');
        assert(with_last(path, empty) =~= path.push('/'));
        assert(pieces(path.push('/'), '/').drop_last() =~= pieces(path, '/'));
        assert(components(path.push('/')) =~= components(path));
        assert(!dot.contains('/'));
        lemma_head_component(path, dot);
        lemma_pieces_append(path, dot, '/');
        assert(with_last(path, dot) =~= path.push('/').push('.'));
        assert(pieces(path.push('/').push('.'), '/').drop_last() =~= pieces(path, '/'));
        assert(components(path.push('/').push('.')) =~= components(path));
    }
    lemma_pieces_single(empty, '/');
    lemma_pieces_append(empty, empty, '/');
    assert(empty.push('/') + empty =~= slash);
    assert(pieces(slash, '/') == seq![empty].push(empty));
    assert(seq![empty].push(empty).drop_last() =~= seq![empty]);
    assert(seq![empty].drop_last() =~= Seq::<Seq<char>>::empty());
    assert(components(slash) =~= seq![slash]);
    assert(!dot.contains('/'));
    lemma_pieces_single(dot, '/');
    assert(seq![dot].drop_last() =~= Seq::<Seq<char>>::empty());
    assert(components(dot) =~= seq![dot]);
    assert(components(empty) =~= Seq::<Seq<char>>::empty());
}

/// The last name of a path is the name that was put behind it, and what stands before
/// is its parent. Two dots are no name, and neither a root nor nothing has either.
pub proof fn law_parent_and_name(path: Seq<char>, name: Seq<char>)
    requires
        path.len() > 0,
        is_name(name),
    ensures
        parent_path(with_last(path, name)) is Some,
        same_path(parent_path(with_last(path, name))->0, path),
        name != seq!['.', '.'] ==> last_name(with_last(path, name)) == Some(name),
        name != seq!['.', '.'] ==> last_name(name) == Some(name),
        last_name(with_last(path, seq!['.', '.'])) is None,
        last_name(seq!['/']) is None,
        parent_path(seq!['/']) is None,
        last_name(seq!['.']) is None,
        last_name(Seq::<char>::empty()) is None,
        parent_path(Seq::<char>::empty()) is None,
        parent_path(name) == Some(Seq::<char>::empty()),
        parent_path(seq!['/'] + name) == Some(seq!['/']),
        name != seq!['.', '.'] ==> last_name(seq!['/'] + name) == Some(name),
{
    law_components(path, name);
    assert(seq![name].drop_last() =~= Seq::<Seq<char>>::empty());
    assert(seq![seq!['/'], name].drop_last() =~= seq![seq!['/']]);
    law_path_text(Seq::empty(), name);
    assert(path_text(Seq::<Seq<char>>::empty()) =~= Seq::<char>::empty());
    law_components(path, seq!['.', '.']);
    lemma_dot(name);
    lemma_components_valid(path);
    assert(components(path).push(name).drop_last() =~= components(path));
    lemma_path_text(components(path));
    assert(name != seq!['/']) by {
        assert(name[0] != '/');
    }
    assert(seq!['/'].len() == 1);
    assert(seq!['.', '.'].len() == 2);
}

/// A dot behind the root changes nothing.
proof fn lemma_root_dot()
    ensures
        components(seq!['/', '.']) == seq![seq!['/']],
{
    let empty = Seq::<char>::empty();
    let dot = seq!['.'];
    reveal_with_fuel(plain_segments, 3);
    lemma_pieces_single(empty, '/');
    assert(!dot.contains('/'));
    lemma_pieces_append(empty, dot, '/');
    assert(empty.push('/') + dot =~= seq!['/', '.']);
    assert(seq![empty].push(dot).drop_last() =~= seq![empty]);
    assert(seq![empty].drop_last() =~= Seq::<Seq<char>>::empty());
    assert(components(seq!['/', '.']) =~= seq![seq!['/']]);
}

/// A relative path goes below its base, and an absolute one stands for itself.
pub proof fn law_joined_path(base: Seq<char>, name: Seq<char>, path: Seq<char>)
    ensures
        is_name(name) && base.len() > 0 ==> components(joined_path(base, name)) == components(
            base,
        ).push(name),
        is_name(name) ==> joined_path(Seq::<char>::empty(), name) == name,
        joined_path(base, seq!['/'] + path) == seq!['/'] + path,
        path.len() > 0 && path[0] != '/' ==> joined_path(base, with_last(path, name)) == with_last(
            joined_path(base, path),
            name,
        ),
        base.len() > 0 ==> components(joined_path(base, seq!['.'])) == components(base),
{
    assert((seq!['/'] + path)[0] == '/');
    if path.len() > 0 && path[0] != '/' {
        let longer = with_last(path, name);
        assert(longer[0] == path[0]);
        assert(base.push('/') + longer =~= with_last(base.push('/') + path, name));
        assert(base + longer =~= with_last(base + path, name));
    }
    if base.len() > 0 {
        let dot = seq!['.'];
        law_components(base, name);
        assert(dot[0] != '/');
        assert(base.push('/') + dot =~= base.push('/').push('.'));
        if base.last() == '/' {
            let head = base.drop_last();
            assert(base =~= head.push('/'));
            if head.len() > 0 {
                law_components(head, name);
                assert(base + dot =~= head.push('/').push('.'));
            } else {
                assert(base =~= seq!['/']);
                lemma_root_dot();
                assert(base + dot =~= seq!['/', '.']);
            }
        }
    }
    if is_name(name) {
        assert(name[0] != '/');
        assert(Seq::<char>::empty() + name =~= name);
        if base.len() > 0 {
            law_components(base, name);
            if base.last() == '/' {
                let head = base.drop_last();
                assert(base =~= head.push('/'));
                if head.len() > 0 {
                    law_components(head, name);
                    assert(base + name =~= with_last(head, name));
                } else {
                    assert(head =~= Seq::<char>::empty());
                    assert(base =~= seq!['/']);
                    law_components(seq!['/'], name);
                    assert(components(base).push(name) =~= seq![seq!['/'], name]);
                }
            }
        }
    }
}

/// The last dot of a name is the one behind which there is no other.
proof fn lemma_last_dot(stem: Seq<char>, ending: Seq<char>)
    requires
        !ending.contains('.'),
    ensures
        last_dot(stem.push('.') + ending) == stem.len(),
        last_dot(ending) == -1,
    decreases ending.len(),
{
    let name = stem.push('.') + ending;
    if ending.len() == 0 {
        assert(name =~= stem.push('.'));
    } else {
        let rest = ending.drop_last();
        assert forall|i: int| 0 <= i < rest.len() implies rest[i] != '.' by {
            assert(ending.contains(ending[i]));
        }
        assert(!rest.contains('.'));
        assert(ending.contains(ending.last()));
        lemma_last_dot(stem, rest);
        assert(name.drop_last() =~= stem.push('.') + rest);
    }
}

/// A file's extension is what follows the last dot of its name, where something
/// stands before that dot; a name without dots has none, and neither has a path
/// without a name.
pub proof fn law_extension(file: Seq<char>, stem: Seq<char>, ending: Seq<char>)
    requires
        !ending.contains('.'),
    ensures
        last_name(file) == Some(stem.push('.') + ending) ==> extension(file) == if stem.len() > 0 {
            Some(ending)
        } else {
            None
        },
        last_name(file) == Some(ending) ==> extension(file) is None,
        last_name(file) is None ==> extension(file) is None,
{
    let name = stem.push('.') + ending;
    lemma_last_dot(stem, ending);
    assert(name.skip(stem.len() as int + 1) =~= ending);
}

/// A file is a source file exactly where its extension is that of TypeScript or
/// JavaScript, with or without markup.
pub proof fn law_source_file(file: Seq<char>, stem: Seq<char>, ending: Seq<char>)
    requires
        !ending.contains('.'),
    ensures
        last_name(file) == Some(stem.push('.') + ending) ==> is_source_path(file) == (stem.len() > 0
            && (ending == seq!['t', 's'] || ending == seq!['t', 's', 'x'] || ending == seq![
            'j',
            's',
        ] || ending == seq!['j', 's', 'x'])),
        last_name(file) == Some(ending) ==> !is_source_path(file),
        last_name(file) is None ==> !is_source_path(file),
{
    law_extension(file, stem, ending);
    reveal_strlit("ts");
    reveal_strlit("tsx");
    reveal_strlit("js");
    reveal_strlit("jsx");
    assert("ts"@ =~= seq!['t', 's']);
    assert("tsx"@ =~= seq!['t', 's', 'x']);
    assert("js"@ =~= seq!['j', 's']);
    assert("jsx"@ =~= seq!['j', 's', 'x']);
}

/// A path without an extension gets the ending of a JSON file behind its name; one
/// that has an extension, or no name, stays as it is.
pub proof fn law_json_path(file: Seq<char>, name: Seq<char>)
    ensures
        last_name(file) == Some(name) && extension(file) is None ==> components(json_path(file))
            == components(file).drop_last().push(name + seq!['.', 'j', 's', 'o', 'n']),
        last_name(file) is None || extension(file) is Some ==> json_path(file) == file,
{
    if last_name(file) == Some(name) && extension(file) is None {
        reveal_strlit(".json");
        assert(".json"@ =~= seq!['.', 'j', 's', 'o', 'n']);
        let longer = name + ".json"@;
        let list = components(file);
        lemma_components_valid(file);
        assert(list[list.len() - 1] == name);
        assert(!name.contains('/'));
        assert(!longer.contains('/')) by {
            assert forall|i: int| 0 <= i < longer.len() implies longer[i] != '/' by {
                if i < name.len() {
                    assert(name.contains(name[i]));
                }
            }
        }
        let made = list.drop_last().push(longer);
        assert(longer.len() > 1);
        assert forall|i: int| 0 <= i < made.len() implies is_plain(#[trigger] made[i]) || (i == 0
            && (made[i] == seq!['/'] || made[i] == seq!['.'])) by {
            if i < list.len() - 1 {
                assert(made[i] == list[i]);
            }
        }
        lemma_path_text(made);
    }
}

/// Where a text is reached is the first place that is far enough.
proof fn lemma_reached_first(text: Seq<char>, offset: nat, from: int, at: int)
    requires
        0 <= from <= at <= text.len(),
        at == text.len() || byte_len(text.take(at)) >= offset,
        forall|k: int| from <= k < at ==> byte_len(#[trigger] text.take(k)) < offset,
    ensures
        reached(text, offset, from) == at,
    decreases at - from,
{
    if from < at {
        assert(byte_len(text.take(from)) < offset);
        lemma_reached_first(text, offset, from + 1, at);
    }
}

/// A position inside a character counts as the end of the character, and one behind
/// the text as the end of the text.
pub proof fn law_position_between(text: Seq<char>, offset: nat, at: int)
    requires
        0 <= at <= text.len(),
        at > 0 ==> byte_len(text.take(at - 1)) < offset,
        at < text.len() ==> offset <= byte_len(text.take(at)),
    ensures
        line_col(text, offset) == line_col(text, byte_len(text.take(at))),
{
    assert forall|k: int| 0 <= k < at implies byte_len(#[trigger] text.take(k)) < offset by {
        lemma_byte_len_grows(text, k, at - 1);
    }
    lemma_reached_first(text, offset, 0, at);
    assert forall|k: int| 0 <= k < at implies byte_len(#[trigger] text.take(k)) < byte_len(
        text.take(at),
    ) by {
        lemma_byte_len_grows(text, k, at);
    }
    lemma_reached_first(text, byte_len(text.take(at)), 0, at);
}

/// A position is one column further for each character of its line, and the first of
/// the next line behind a line feed. A text starts at the first column of the first
/// line.
pub proof fn law_next_position(text: Seq<char>, at: int)
    requires
        0 <= at < text.len(),
    ensures
        ({
            let (line, col) = line_col(text, byte_len(text.take(at)));
            let next = line_col(text, byte_len(text.take(at + 1)));
            next == if text[at] == '\n' {
                (line + 1, 1nat)
            } else {
                (line, col + 1)
            }
        }),
        line_col(text, 0) == (1nat, 1nat),
{
    assert forall|k: int| 0 <= k < at implies byte_len(#[trigger] text.take(k)) < byte_len(
        text.take(at),
    ) by {
        lemma_byte_len_grows(text, k, at);
    }
    lemma_reached_first(text, byte_len(text.take(at)), 0, at);
    assert forall|k: int| 0 <= k < at + 1 implies byte_len(#[trigger] text.take(k)) < byte_len(
        text.take(at + 1),
    ) by {
        lemma_byte_len_grows(text, k, at + 1);
    }
    lemma_reached_first(text, byte_len(text.take(at + 1)), 0, at + 1);
    assert(text.take(at + 1).drop_last() =~= text.take(at));
    assert(text.take(at + 1).last() == text[at]);
    assert(text.take(0).len() == 0);
    lemma_reached_first(text, 0, 0, 0);
}

/// A text holds another exactly where it can be put together with the other inside.
pub proof fn law_holds_text(text: Seq<char>, wanted: Seq<char>)
    ensures
        holds_text(text, wanted) == exists|a: Seq<char>, b: Seq<char>|
            #[trigger] (a + wanted + b) == text,
{
    if holds_text(text, wanted) {
        let at = choose|at: int| 0 <= at && #[trigger] stands_at(text, wanted, at);
        let a = text.take(at);
        let b = text.skip(at + wanted.len());
        assert(a + wanted + b =~= text) by {
            assert forall|k: int| at <= k < at + wanted.len() implies text[k]
                == wanted[k - at] by {
                assert(text.subrange(at, at + wanted.len())[k - at] == wanted[k - at]);
            }
        }
    }
    if exists|a: Seq<char>, b: Seq<char>| #[trigger] (a + wanted + b) == text {
        let (a, b) = choose|a: Seq<char>, b: Seq<char>| #[trigger] (a + wanted + b) == text;
        let at = a.len() as int;
        assert(text.subrange(at, at + wanted.len()) =~= wanted);
        assert(stands_at(text, wanted, at));
    }
}

/// What is left of a text without its start or its end is what was put behind the
/// start or before the end; a text that does not start or end so has nothing left.
pub proof fn law_stripped(text: Seq<char>, part: Seq<char>, rest: Seq<char>)
    ensures
        without_prefix(part + rest, part) == Some(rest),
        without_prefix(text, part) matches Some(left) ==> part + left == text,
        without_suffix(rest + part, part) == Some(rest),
        without_suffix(text, part) matches Some(left) ==> left + part == text,
{
    let front = part + rest;
    assert(part =~= front.subrange(0, part.len() as int));
    assert(front.skip(part.len() as int) =~= rest);
    let back = rest + part;
    assert(back.subrange(rest.len() as int, rest.len() as int + part.len()) =~= part);
    assert(stands_at(back, part, back.len() - part.len()));
    assert(back.take(back.len() - part.len()) =~= rest);
    if let Some(left) = without_prefix(text, part) {
        assert(part + left =~= text);
    }
    if let Some(left) = without_suffix(text, part) {
        let at = text.len() - part.len();
        assert forall|k: int| at <= k < text.len() implies text[k] == part[k - at] by {
            assert(text.subrange(at, at + part.len())[k - at] == part[k - at]);
        }
        assert(left + part =~= text);
    }
}

/// A path is at or below another exactly where something can be put behind the
/// components of that other.
pub proof fn law_is_below(path: Seq<char>, base: Seq<char>)
    ensures
        is_below(path, base) == exists|rest: Seq<Seq<char>>|
            #[trigger] (components(base) + rest) == components(path),
{
    let head = components(base);
    let list = components(path);
    if head.is_prefix_of(list) {
        assert(head + list.skip(head.len() as int) =~= list);
    }
    if exists|rest: Seq<Seq<char>>| #[trigger] (head + rest) == list {
        let rest = choose|rest: Seq<Seq<char>>| #[trigger] (head + rest) == list;
        assert(head =~= list.subrange(0, head.len() as int));
    }
}

/// The text of components is their names with slashes between them, and the root
/// before them where they start at it.
pub proof fn law_path_text(list: Seq<Seq<char>>, name: Seq<char>)
    ensures
        path_text(Seq::<Seq<char>>::empty()).len() == 0,
        name != seq!['/'] ==> path_text(seq![name]) == name,
        path_text(seq![seq!['/']]) == seq!['/'],
        path_text(seq![seq!['/'], name]) == seq!['/'] + name,
        list.len() > 0 && list != seq![seq!['/']] ==> path_text(list.push(name)) == path_text(
            list,
        ).push('/') + name,
{
    let slash = seq!['/'];
    assert(seq![slash].skip(1) =~= Seq::<Seq<char>>::empty());
    assert(slash + Seq::<char>::empty() =~= slash);
    assert(seq![slash, name].skip(1) =~= seq![name]);
    if list.len() > 0 && list != seq![slash] {
        let longer = list.push(name);
        assert(longer.drop_last() =~= list);
        assert(longer[0] == list[0]);
        if list[0] == slash {
            if list.len() == 1 {
                assert(list =~= seq![slash]);
            }
            let rest = list.skip(1);
            assert(longer.skip(1) =~= rest.push(name));
            assert(rest.push(name).drop_last() =~= rest);
            assert(slash + (joined(rest).push('/') + name) =~= (slash + joined(rest)).push('/')
                + name);
        }
    }
}

/// Behind the last line of a text, a line starts where the text ends, or one further
/// where its last line is not ended.
pub proof fn law_far_line(text: Seq<char>, line: nat)
    requires
        line > line_feeds(text) + 1,
    ensures
        text.len() == 0 || text.last() == '\n' ==> line_offset(text, line) == byte_len(text),
        text.len() > 0 && text.last() != '\n' ==> line_offset(text, line) == byte_len(text) + 1,
        line_offset(text, 0) == 0,
        line_offset(text, 1) == 0,
{
    lemma_piece_count(text);
    lemma_all_bytes(text);
}

/// The line feeds of a text are those of its parts.
pub proof fn law_line_feeds(a: Seq<char>, b: Seq<char>)
    ensures
        line_feeds(a + b) == line_feeds(a) + line_feeds(b),
        line_feeds(seq!['\n']) == 1,
        !a.contains('\n') ==> line_feeds(a) == 0,
    decreases b.len(), a.len(),
{
    reveal_with_fuel(line_feeds, 2);
    if b.len() == 0 {
        assert(a + b =~= a);
        if a.len() > 0 && !a.contains('\n') {
            let rest = a.drop_last();
            assert forall|i: int| 0 <= i < rest.len() implies rest[i] != '\n' by {
                assert(a.contains(a[i]));
            }
            assert(a.contains(a.last()));
            law_line_feeds(rest, b);
        }
    } else {
        law_line_feeds(a, b.drop_last());
        assert((a + b).drop_last() =~= a + b.drop_last());
        assert((a + b).last() == b.last());
        law_line_feeds(a, Seq::empty());
    }
}

/// A text is compared by the code points of its characters, each in its place.
pub proof fn law_codes(text: Seq<char>, i: int)
    requires
        0 <= i < text.len(),
    ensures
        codes(text).len() == text.len(),
        codes(text)[i] == text[i] as int,
{
}

} // verus!
