//! Slash-separated paths, read as lists of components.
//!
//! A path is a text. Two paths are the same when their components are: empty
//! segments and `.` segments count for nothing, but for a leading `.`.
use crate::text::{chars_of, lemma_pieces_nonempty, pieces, same, split, text_of, texts};
use vstd::prelude::*;

verus! {

/// Whether a segment counts: it is neither empty nor a single dot.
pub open spec fn counts(segment: Seq<char>) -> bool {
    segment.len() > 0 && segment != seq!['.']
}

/// The segments that count.
pub open spec fn plain_segments(segments: Seq<Seq<char>>) -> Seq<Seq<char>>
    decreases segments.len(),
{
    if segments.len() == 0 {
        Seq::empty()
    } else {
        let before = plain_segments(segments.drop_last());
        if counts(segments.last()) {
            before.push(segments.last())
        } else {
            before
        }
    }
}

/// The component that a path begins with before its plain segments: the root
/// of an absolute path, or a leading `.`.
pub open spec fn head_component(path: Seq<char>) -> Seq<Seq<char>> {
    if path.len() > 0 && path[0] == '/' {
        seq![seq!['/']]
    } else if pieces(path, '/')[0] == seq!['.'] {
        seq![seq!['.']]
    } else {
        Seq::empty()
    }
}

/// The components of a path.
pub open spec fn components(path: Seq<char>) -> Seq<Seq<char>> {
    head_component(path) + plain_segments(pieces(path, '/'))
}

/// Whether two texts are the same path.
pub open spec fn same_path(a: Seq<char>, b: Seq<char>) -> bool {
    components(a) == components(b)
}

/// Whether `base` is a beginning of `path`, component by component.
pub open spec fn is_below(path: Seq<char>, base: Seq<char>) -> bool {
    components(base).is_prefix_of(components(path))
}

/// Whether a component can stand anywhere in a path.
pub open spec fn is_plain(component: Seq<char>) -> bool {
    counts(component) && !component.contains('/')
}

/// Whether a list can be the components of a path.
pub open spec fn are_components(list: Seq<Seq<char>>) -> bool {
    forall|i: int|
        0 <= i < list.len() ==> is_plain(#[trigger] list[i]) || (i == 0 && (list[i] == seq!['/']
            || list[i] == seq!['.']))
}

/// The components written one behind the other with slashes between them.
pub open spec fn joined(list: Seq<Seq<char>>) -> Seq<char>
    decreases list.len(),
{
    if list.len() == 0 {
        Seq::empty()
    } else if list.len() == 1 {
        list[0]
    } else {
        joined(list.drop_last()).push('/') + list.last()
    }
}

/// A path with the given components.
pub open spec fn path_text(list: Seq<Seq<char>>) -> Seq<char> {
    if list.len() > 0 && list[0] == seq!['/'] {
        seq!['/'] + joined(list.skip(1))
    } else {
        joined(list)
    }
}

/// The path with the components of `path` and no other segment.
pub open spec fn normal(path: Seq<char>) -> Seq<char> {
    path_text(components(path))
}

/// No piece holds the separator.
pub proof fn lemma_pieces_separator(text: Seq<char>, separator: char)
    ensures
        forall|i: int|
            0 <= i < pieces(text, separator).len() ==> !(#[trigger] pieces(
                text,
                separator,
            )[i]).contains(separator),
    decreases text.len(),
{
    lemma_pieces_nonempty(text, separator);
    if text.len() > 0 {
        lemma_pieces_nonempty(text.drop_last(), separator);
        lemma_pieces_separator(text.drop_last(), separator);
        let before = pieces(text.drop_last(), separator);
        let all = pieces(text, separator);
        assert forall|i: int| 0 <= i < all.len() implies !(#[trigger] all[i]).contains(separator) by {
            if text.last() == separator {
                if i < before.len() {
                    assert(all[i] == before[i]);
                }
            } else if i < before.len() - 1 {
                assert(all[i] == before[i]);
            } else {
                let last = before.last();
                assert(all[i] == last.push(text.last()));
                assert(!before[before.len() - 1].contains(separator));
                if all[i].contains(separator) {
                    let k = choose|k: int| 0 <= k < all[i].len() && all[i][k] == separator;
                    if k < last.len() {
                        assert(last[k] == separator);
                    }
                }
            }
        }
    }
}

/// A text without separators, appended behind a separator, is the last piece.
pub proof fn lemma_pieces_append(a: Seq<char>, b: Seq<char>, separator: char)
    requires
        !b.contains(separator),
    ensures
        pieces(a.push(separator) + b, separator) == pieces(a, separator).push(b),
    decreases b.len(),
{
    let whole = a.push(separator) + b;
    if b.len() == 0 {
        assert(whole =~= a.push(separator));
        assert(whole.drop_last() =~= a);
        assert(b =~= Seq::<char>::empty());
    } else {
        let c = b.drop_last();
        assert(b.last() == b[b.len() - 1]);
        assert(forall|k: int| 0 <= k < c.len() ==> c[k] == b[k]);
        lemma_pieces_append(a, c, separator);
        assert(whole.drop_last() =~= a.push(separator) + c);
        let before = pieces(a, separator).push(c);
        assert(before.drop_last() =~= pieces(a, separator));
        assert(c.push(b.last()) =~= b);
        assert(pieces(whole, separator) =~= pieces(a, separator).push(b));
    }
}

/// A text without separators is its only piece.
pub proof fn lemma_pieces_single(b: Seq<char>, separator: char)
    requires
        !b.contains(separator),
    ensures
        pieces(b, separator) == seq![b],
    decreases b.len(),
{
    if b.len() == 0 {
        assert(b =~= Seq::<char>::empty());
    } else {
        let c = b.drop_last();
        assert(b.last() == b[b.len() - 1]);
        assert(forall|k: int| 0 <= k < c.len() ==> c[k] == b[k]);
        lemma_pieces_single(c, separator);
        assert(c.push(b.last()) =~= b);
        assert(pieces(b, separator) =~= seq![b]);
    }
}

/// The pieces of a text that begins with the separator: an empty one, and
/// those of the rest.
proof fn lemma_pieces_leading(b: Seq<char>, separator: char)
    ensures
        pieces(seq![separator] + b, separator) == seq![Seq::<char>::empty()] + pieces(b, separator),
    decreases b.len(),
{
    let whole = seq![separator] + b;
    if b.len() == 0 {
        assert(whole =~= seq![separator]);
        assert(whole.drop_last() =~= Seq::<char>::empty());
        assert(pieces(whole.drop_last(), separator) =~= seq![Seq::<char>::empty()]);
        assert(pieces(b, separator) =~= seq![Seq::<char>::empty()]);
        assert(pieces(whole, separator) =~= seq![Seq::<char>::empty()] + pieces(b, separator));
    } else {
        lemma_pieces_leading(b.drop_last(), separator);
        lemma_pieces_nonempty(b.drop_last(), separator);
        assert(whole.drop_last() =~= seq![separator] + b.drop_last());
        assert(pieces(whole, separator) =~= seq![Seq::<char>::empty()] + pieces(b, separator));
    }
}

/// The pieces of joined components are the components.
proof fn lemma_pieces_joined(list: Seq<Seq<char>>)
    requires
        list.len() > 0,
        forall|i: int| 0 <= i < list.len() ==> !(#[trigger] list[i]).contains('/'),
    ensures
        pieces(joined(list), '/') == list,
    decreases list.len(),
{
    if list.len() == 1 {
        lemma_pieces_single(list[0], '/');
        assert(list =~= seq![list[0]]);
    } else {
        lemma_pieces_joined(list.drop_last());
        assert(list[list.len() - 1] == list.last());
        lemma_pieces_append(joined(list.drop_last()), list.last(), '/');
        assert(list =~= list.drop_last().push(list.last()));
    }
}

/// A filter that holds of every item keeps the whole.
proof fn lemma_filter_all(list: Seq<Seq<char>>)
    requires
        forall|i: int| 0 <= i < list.len() ==> is_plain(#[trigger] list[i]),
    ensures
        plain_segments(list) == list,
    decreases list.len(),
{
    if list.len() > 0 {
        lemma_filter_all(list.drop_last());
        assert(is_plain(list[list.len() - 1]));
        assert(list =~= list.drop_last().push(list.last()));
    }
}

/// Dropping a first segment that is no component changes nothing.
proof fn lemma_filter_first(first: Seq<char>, rest: Seq<Seq<char>>)
    requires
        !counts(first),
    ensures
        plain_segments(seq![first] + rest) == plain_segments(rest),
    decreases rest.len(),
{
    let whole = seq![first] + rest;
    if rest.len() == 0 {
        assert(whole.drop_last() =~= Seq::<Seq<char>>::empty());
        assert(rest =~= Seq::<Seq<char>>::empty());
        assert(plain_segments(rest) =~= Seq::<Seq<char>>::empty());
        assert(whole.last() == first);
    } else {
        lemma_filter_first(first, rest.drop_last());
        assert(whole.drop_last() =~= seq![first] + rest.drop_last());
        assert(whole.last() == rest.last());
    }
}

/// What a filter keeps are plain components.
proof fn lemma_filter_plain(list: Seq<Seq<char>>)
    requires
        forall|i: int| 0 <= i < list.len() ==> !(#[trigger] list[i]).contains('/'),
    ensures
        forall|i: int|
            0 <= i < plain_segments(list).len() ==> is_plain(#[trigger] plain_segments(list)[i]),
    decreases list.len(),
{
    if list.len() > 0 {
        lemma_filter_plain(list.drop_last());
        assert(!list[list.len() - 1].contains('/'));
        let before = plain_segments(list.drop_last());
        assert forall|i: int| 0 <= i < plain_segments(list).len() implies is_plain(
            #[trigger] plain_segments(list)[i],
        ) by {
            if i < before.len() {
                assert(plain_segments(list)[i] == before[i]);
            }
        }
    }
}

/// The components of a path can be the components of a path.
pub proof fn lemma_components_valid(path: Seq<char>)
    ensures
        are_components(components(path)),
{
    lemma_pieces_separator(path, '/');
    lemma_filter_plain(pieces(path, '/'));
    let head = head_component(path);
    let body = plain_segments(pieces(path, '/'));
    let list = components(path);
    assert forall|i: int| 0 <= i < list.len() implies is_plain(#[trigger] list[i]) || (i == 0 && (
    list[i] == seq!['/'] || list[i] == seq!['.'])) by {
        if i < head.len() {
            assert(list[i] == head[i]);
        } else {
            assert(list[i] == body[i - head.len()]);
        }
    }
}

/// A relative path with given components has these components.
proof fn lemma_relative_text(list: Seq<Seq<char>>)
    requires
        are_components(list),
        list.len() > 0,
        list[0] != seq!['/'],
    ensures
        components(joined(list)) == list,
{
    let text = joined(list);
    assert(!seq!['.'].contains('/'));
    assert forall|i: int| 0 <= i < list.len() implies !(#[trigger] list[i]).contains('/') by {
        if !is_plain(list[i]) {
            assert(i == 0);
        }
    }
    lemma_pieces_joined(list);
    lemma_joined_start(list);
    assert(text[0] != '/') by {
        assert(!list[0].contains('/'));
        assert(list[0][0] == text[0]);
    }
    if list[0] == seq!['.'] {
        let rest = list.skip(1);
        assert forall|i: int| 0 <= i < rest.len() implies is_plain(#[trigger] rest[i]) by {
            assert(is_plain(list[i + 1]));
        }
        assert(list =~= seq![seq!['.']] + rest);
        lemma_filter_first(seq!['.'], rest);
        lemma_filter_all(rest);
    } else {
        assert forall|i: int| 0 <= i < list.len() implies is_plain(#[trigger] list[i]) by {}
        lemma_filter_all(list);
        assert(components(text) =~= list);
    }
}

/// An absolute path with given components has these components.
proof fn lemma_absolute_text(rest: Seq<Seq<char>>)
    requires
        forall|i: int| 0 <= i < rest.len() ==> is_plain(#[trigger] rest[i]),
    ensures
        components(seq!['/'] + joined(rest)) == seq![seq!['/']] + rest,
{
    let text = seq!['/'] + joined(rest);
    assert(text[0] == '/');
    lemma_pieces_leading(joined(rest), '/');
    if rest.len() == 0 {
        let empty = Seq::<char>::empty();
        lemma_pieces_single(empty, '/');
        lemma_filter_first(empty, seq![empty]);
        lemma_filter_first(empty, Seq::empty());
        assert(seq![empty] + Seq::<Seq<char>>::empty() =~= seq![empty]);
        assert(rest =~= Seq::<Seq<char>>::empty());
        assert(plain_segments(rest) =~= rest);
    } else {
        lemma_pieces_joined(rest);
        lemma_filter_first(Seq::empty(), rest);
        lemma_filter_all(rest);
    }
}

/// A path with given components has these components.
pub proof fn lemma_path_text(list: Seq<Seq<char>>)
    requires
        are_components(list),
    ensures
        components(path_text(list)) == list,
{
    if list.len() == 0 {
        let empty = Seq::<char>::empty();
        lemma_pieces_single(empty, '/');
        lemma_filter_first(empty, Seq::empty());
        assert(seq![empty] + Seq::<Seq<char>>::empty() =~= seq![empty]);
        assert(components(path_text(list)) =~= list);
    } else if list[0] == seq!['/'] {
        let rest = list.skip(1);
        assert forall|i: int| 0 <= i < rest.len() implies is_plain(#[trigger] rest[i]) by {
            assert(is_plain(list[i + 1]));
        }
        lemma_absolute_text(rest);
        assert(list =~= seq![seq!['/']] + rest);
    } else {
        lemma_relative_text(list);
    }
}

/// Joined components begin with the first component's first character.
proof fn lemma_joined_start(list: Seq<Seq<char>>)
    requires
        list.len() > 0,
        list[0].len() > 0,
    ensures
        joined(list).len() > 0,
        joined(list)[0] == list[0][0],
    decreases list.len(),
{
    if list.len() > 1 {
        lemma_joined_start(list.drop_last());
    }
}

/// Normal texts tell paths apart exactly: two paths have one normal text if and
/// only if their components are the same, and a normal text is the path that it
/// stands for.
pub proof fn law_normal_text(a: Seq<char>, b: Seq<char>)
    ensures
        (normal(a) == normal(b)) == same_path(a, b),
        same_path(normal(a), a),
{
    lemma_components_valid(a);
    lemma_components_valid(b);
    lemma_path_text(components(a));
    lemma_path_text(components(b));
}

/// Whether a text is the single character `c`.
fn is_char(text: &String, c: char) -> (r: bool)
    ensures
        r == (text@ == seq![c]),
{
    let chars: Vec<char> = chars_of(text.as_str());
    if chars.len() == 1 && chars[0] == c {
        proof {
            assert(text@ =~= seq![c]);
        }
        true
    } else {
        false
    }
}

/// The components of a path.
pub fn components_of(path: &str) -> (r: Vec<String>)
    ensures
        texts(r@) == components(path@),
{
    let segments: Vec<String> = split(path, '/');
    let ghost all = pieces(path@, '/');
    let chars: Vec<char> = chars_of(path);
    let mut r: Vec<String> = Vec::new();
    proof {
        lemma_pieces_nonempty(path@, '/');
        assert(texts(segments@).len() == segments@.len());
        assert(texts(segments@)[0] == segments@[0]@);
    }
    if chars.len() > 0 && chars[0] == '/' {
        r.push("/".to_owned());
        proof {
            reveal_strlit("/");
            assert("/"@ =~= seq!['/']);
        }
    } else if is_char(&segments[0], '.') {
        r.push(".".to_owned());
        proof {
            reveal_strlit(".");
            assert("."@ =~= seq!['.']);
        }
    }
    proof {
        assert(texts(r@) =~= head_component(path@));
        assert(head_component(path@) + plain_segments(all.take(0)) =~= head_component(path@));
    }
    let mut i: usize = 0;
    while i < segments.len()
        invariant
            texts(segments@) == all,
            i <= segments@.len(),
            texts(r@) == head_component(path@) + plain_segments(all.take(i as int)),
        decreases segments@.len() - i,
    {
        let ghost before = r@;
        proof {
            assert(texts(segments@).len() == segments@.len());
            assert(texts(segments@)[i as int] == segments@[i as int]@);
            assert(all.take(i + 1).drop_last() =~= all.take(i as int));
            assert(all.take(i + 1).last() == segments@[i as int]@);
        }
        let empty: bool = same(segments[i].as_str(), "");
        proof {
            reveal_strlit("");
            assert(""@ =~= Seq::<char>::empty());
            assert(empty == (segments@[i as int]@ =~= Seq::<char>::empty()));
        }
        if !empty && !is_char(&segments[i], '.') {
            r.push(segments[i].clone());
            proof {
                assert(texts(r@) =~= texts(before).push(segments@[i as int]@));
                assert(texts(r@) =~= head_component(path@) + plain_segments(all.take(i + 1)));
            }
        } else {
            proof {
                assert(plain_segments(all.take(i + 1)) == plain_segments(all.take(i as int)));
            }
        }
        i = i + 1;
    }
    proof {
        assert(all.take(all.len() as int) =~= all);
    }
    r
}

/// The components written one behind the other with slashes between them.
fn join_components(list: &Vec<String>, from: usize, to: usize) -> (r: String)
    requires
        from <= to <= list@.len(),
    ensures
        r@ == joined(texts(list@).subrange(from as int, to as int)),
{
    let ghost all = texts(list@);
    let mut r: String = String::new();
    let mut i: usize = from;
    proof {
        assert(joined(all.subrange(from as int, from as int)) =~= Seq::<char>::empty());
    }
    while i < to
        invariant
            from <= i <= to <= list@.len(),
            all == texts(list@),
            all.len() == list@.len(),
            r@ == joined(all.subrange(from as int, i as int)),
        decreases to - i,
    {
        proof {
            let next = all.subrange(from as int, i + 1);
            assert(next.drop_last() =~= all.subrange(from as int, i as int));
            assert(next.last() == list@[i as int]@);
        }
        if i > from {
            r.push('/');
        }
        r.append(list[i].as_str());
        i = i + 1;
    }
    r
}

/// The path with the given components.
pub fn path_of(list: &Vec<String>) -> (r: String)
    ensures
        r@ == path_text(texts(list@)),
{
    path_of_range(list, 0, list.len())
}

/// The path with the components from `from` up to, but without, `to`.
fn path_of_range(list: &Vec<String>, from: usize, to: usize) -> (r: String)
    requires
        from <= to <= list@.len(),
    ensures
        r@ == path_text(texts(list@).subrange(from as int, to as int)),
        from == 0 && to == list@.len() ==> r@ == path_text(texts(list@)),
{
    let ghost all = texts(list@);
    let ghost part = all.subrange(from as int, to as int);
    proof {
        assert(from == 0 && to == list@.len() ==> part =~= all);
        assert(from < to ==> part[0] == list@[from as int]@);
    }
    if from < to && is_char(&list[from], '/') {
        let mut r: String = "/".to_owned();
        let rest: String = join_components(list, from + 1, to);
        r.append(rest.as_str());
        proof {
            reveal_strlit("/");
            assert("/"@ =~= seq!['/']);
            assert(part.skip(1) =~= all.subrange(from + 1, to as int));
        }
        r
    } else {
        join_components(list, from, to)
    }
}

/// The path with the components of `path` and no other segment.
pub fn normalize(path: &str) -> (r: String)
    ensures
        r@ == normal(path@),
{
    let list: Vec<String> = components_of(path);
    path_of(&list)
}

/// Whether the lists agree from the start of both up to the end of `base`.
fn begins_with(list: &Vec<String>, base: &Vec<String>) -> (r: bool)
    ensures
        r == texts(base@).is_prefix_of(texts(list@)),
{
    let ghost all = texts(list@);
    let ghost wanted = texts(base@);
    if base.len() > list.len() {
        return false;
    }
    let mut i: usize = 0;
    while i < base.len()
        invariant
            all == texts(list@),
            wanted == texts(base@),
            base@.len() <= list@.len(),
            i <= base@.len(),
            forall|k: int| 0 <= k < i ==> list@[k]@ == base@[k]@,
        decreases base@.len() - i,
    {
        if !same(list[i].as_str(), base[i].as_str()) {
            proof {
                assert(all[i as int] == list@[i as int]@);
                assert(wanted[i as int] == base@[i as int]@);
                assert(all.subrange(0, wanted.len() as int)[i as int] == all[i as int]);
            }
            return false;
        }
        i = i + 1;
    }
    proof {
        assert forall|k: int| 0 <= k < wanted.len() implies wanted[k] == all.subrange(
            0,
            wanted.len() as int,
        )[k] by {
            assert(wanted[k] == base@[k]@);
            assert(all[k] == list@[k]@);
        }
        assert(wanted =~= all.subrange(0, wanted.len() as int));
    }
    true
}

/// Whether `base` is a beginning of `path`, component by component.
pub fn starts_with_path(path: &str, base: &str) -> (r: bool)
    ensures
        r == is_below(path@, base@),
{
    let list: Vec<String> = components_of(path);
    let prefix: Vec<String> = components_of(base);
    begins_with(&list, &prefix)
}

/// What is left of `path` below `base`: a path with the components behind those
/// of `base`.
pub fn strip_path_prefix(path: &str, base: &str) -> (r: Option<String>)
    ensures
        match r {
            Some(rest) => is_below(path@, base@) && components(rest@) == components(path@).skip(
                components(base@).len() as int,
            ),
            None => !is_below(path@, base@),
        },
{
    let list: Vec<String> = components_of(path);
    let prefix: Vec<String> = components_of(base);
    if !begins_with(&list, &prefix) {
        return None;
    }
    proof {
        let all = components(path@);
        let rest = all.skip(prefix@.len() as int);
        assert(texts(prefix@).len() == prefix@.len());
        assert(texts(list@).len() == list@.len());
        assert(rest =~= texts(list@).subrange(prefix@.len() as int, list@.len() as int));
        lemma_components_valid(path@);
        assert(are_components(rest)) by {
            assert forall|i: int| 0 <= i < rest.len() implies is_plain(#[trigger] rest[i]) || (i
                == 0 && (rest[i] == seq!['/'] || rest[i] == seq!['.'])) by {
                assert(rest[i] == all[i + prefix@.len()]);
            }
        }
        lemma_path_text(rest);
    }
    Some(path_of_range(&list, prefix.len(), list.len()))
}

/// Whether a path is absolute.
pub open spec fn absolute(path: Seq<char>) -> bool {
    path.len() > 0 && path[0] == '/'
}

/// Whether a path is absolute.
pub fn is_absolute(path: &str) -> (r: bool)
    ensures
        r == absolute(path@),
{
    let chars: Vec<char> = chars_of(path);
    chars.len() > 0 && chars[0] == '/'
}

/// `path` seen from `base`: itself where it is absolute, and otherwise written
/// behind `base` with one slash between them.
pub open spec fn joined_path(base: Seq<char>, path: Seq<char>) -> Seq<char> {
    if absolute(path) {
        path
    } else if base.len() > 0 && base.last() != '/' {
        base.push('/') + path
    } else {
        base + path
    }
}

/// `path` seen from `base`.
pub fn join_path(base: &str, path: &str) -> (r: String)
    ensures
        r@ == joined_path(base@, path@),
{
    if is_absolute(path) {
        return path.to_owned();
    }
    let chars: Vec<char> = chars_of(base);
    let mut r: String = base.to_owned();
    if chars.len() > 0 && chars[chars.len() - 1] != '/' {
        r.push('/');
    }
    r.append(path);
    r
}

/// The directory that a path stands in: the path without its last component,
/// where that is not the root.
pub open spec fn parent_path(path: Seq<char>) -> Option<Seq<char>> {
    let list = components(path);
    if list.len() > 0 && list.last() != seq!['/'] {
        Some(path_text(list.drop_last()))
    } else {
        None
    }
}

/// The directory that a path stands in.
pub fn parent_of(path: &str) -> (r: Option<String>)
    ensures
        match r {
            Some(parent) => parent_path(path@) == Some(parent@),
            None => parent_path(path@) is None,
        },
{
    let list: Vec<String> = components_of(path);
    proof {
        assert(texts(list@).len() == list@.len());
        assert(list@.len() > 0 ==> texts(list@).last() == list@[list@.len() - 1]@);
    }
    if list.len() == 0 || is_char(&list[list.len() - 1], '/') {
        return None;
    }
    proof {
        assert(texts(list@).drop_last() =~= texts(list@).subrange(0, list@.len() - 1));
    }
    Some(path_of_range(&list, 0, list.len() - 1))
}

/// The name of the file or directory that a path ends with.
pub open spec fn last_name(path: Seq<char>) -> Option<Seq<char>> {
    let list = components(path);
    if list.len() > 0 && list.last() != seq!['/'] && list.last() != seq!['.'] && list.last()
        != seq!['.', '.'] {
        Some(list.last())
    } else {
        None
    }
}

/// The name of the file or directory that a path ends with.
pub fn file_name(path: &str) -> (r: Option<String>)
    ensures
        match r {
            Some(name) => last_name(path@) == Some(name@),
            None => last_name(path@) is None,
        },
{
    let list: Vec<String> = components_of(path);
    proof {
        assert(texts(list@).len() == list@.len());
        assert(list@.len() > 0 ==> texts(list@).last() == list@[list@.len() - 1]@);
        reveal_strlit("..");
        assert(".."@ =~= seq!['.', '.']);
    }
    if list.len() == 0 {
        return None;
    }
    let last: &String = &list[list.len() - 1];
    if is_char(last, '/') || is_char(last, '.') || same(last.as_str(), "..") {
        return None;
    }
    Some(last.clone())
}

/// The position of the last dot of a name, or -1.
pub open spec fn last_dot(name: Seq<char>) -> int
    decreases name.len(),
{
    if name.len() == 0 {
        -1
    } else if name.last() == '.' {
        name.len() - 1
    } else {
        last_dot(name.drop_last())
    }
}

/// What stands behind the last dot of a path's last name, where that dot is not
/// the name's first character.
pub open spec fn extension(path: Seq<char>) -> Option<Seq<char>> {
    match last_name(path) {
        Some(name) => if last_dot(name) > 0 {
            Some(name.skip(last_dot(name) + 1))
        } else {
            None
        },
        None => None,
    }
}

/// The extension of a path.
pub fn extension_of(path: &str) -> (r: Option<String>)
    ensures
        match r {
            Some(text) => extension(path@) == Some(text@),
            None => extension(path@) is None,
        },
{
    let name: String = match file_name(path) {
        Some(name) => name,
        None => {
            return None;
        },
    };
    let chars: Vec<char> = chars_of(name.as_str());
    let mut i: usize = chars.len();
    proof {
        assert(chars@.take(chars@.len() as int) =~= chars@);
    }
    while i > 0
        invariant
            chars@ == name@,
            i <= chars@.len(),
            last_name(path@) == Some(name@),
            last_dot(name@) == last_dot(name@.take(i as int)),
        decreases i,
    {
        proof {
            assert(name@.take(i as int).last() == name@[i - 1]);
            assert(name@.take(i as int).drop_last() =~= name@.take(i - 1));
        }
        if chars[i - 1] == '.' {
            if i > 1 {
                proof {
                    assert(name@.skip(i as int) =~= chars@.subrange(i as int, chars@.len() as int));
                }
                return Some(text_of(&chars, i, chars.len()));
            }
            return None;
        }
        i = i - 1;
    }
    None
}

/// A path with `.json` behind its last name, where that name has no extension;
/// the path itself where it has one or names nothing.
pub open spec fn json_path(path: Seq<char>) -> Seq<char> {
    match last_name(path) {
        Some(name) => if extension(path) is None {
            path_text(components(path).drop_last().push(name + ".json"@))
        } else {
            path
        },
        None => path,
    }
}

/// A path with `.json` behind its last name, where that name has no extension.
pub fn with_json_extension(path: &str) -> (r: String)
    ensures
        r@ == json_path(path@),
{
    if extension_of(path).is_some() {
        return path.to_owned();
    }
    let mut name: String = match file_name(path) {
        Some(name) => name,
        None => {
            return path.to_owned();
        },
    };
    let mut list: Vec<String> = components_of(path);
    proof {
        assert(texts(list@).len() == list@.len());
    }
    let ghost before = texts(list@);
    name.append(".json");
    let last: usize = list.len() - 1;
    list.set(last, name);
    proof {
        assert(texts(list@) =~= before.drop_last().push(name@));
    }
    path_of(&list)
}

} // verus!
