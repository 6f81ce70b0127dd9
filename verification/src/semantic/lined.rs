//! Which declarations a line or a reference belongs to, told from where the line
//! starts and ends in the text.
use super::analyzer::{names_around, names_on_line, reference_at, FileView};
use super::naming::names_at;
use crate::spelled::{law_far_line, law_next_position};
use crate::text::{byte_len, pieces};
use crate::utils::{
    law_offset_round_trip, lemma_all_bytes, lemma_piece_count, lemma_place_bounds, lemma_reached,
    line_col, line_feeds, line_head, line_offset, tail_len,
};
use vstd::prelude::*;

verus! {

/// Whether the characters from `s` up to `t` are a line of a text.
pub open spec fn is_line(text: Seq<char>, s: int, t: int) -> bool {
    &&& 0 <= s <= t <= text.len()
    &&& s == 0 || text[s - 1] == '\n'
    &&& t == text.len() || text[t] == '\n'
    &&& forall|k: int| s <= k < t ==> #[trigger] text[k] != '\n'
}

/// The number of the line that starts at `s`.
pub open spec fn line_number(text: Seq<char>, s: int) -> nat {
    line_col(text, byte_len(text.take(s))).0
}

/// The places of the characters of a line.
proof fn lemma_places_on_line(text: Seq<char>, s: int, t: int, at: int)
    requires
        is_line(text, s, t),
        s <= at <= t,
    ensures
        line_col(text, byte_len(text.take(at))) == (line_number(text, s), (at - s + 1) as nat),
        line_number(text, s) >= 1,
    decreases at,
{
    if at > s {
        lemma_places_on_line(text, s, t, at - 1);
        law_next_position(text, at - 1);
        assert(text[at - 1] != '\n');
    } else if s > 0 {
        law_next_position(text, s - 1);
    } else if text.len() > 0 {
        law_next_position(text, 0);
        assert(text.take(0).len() == 0);
    } else {
        lemma_reached(text, 0, 0);
        assert(text.take(0).len() == 0);
    }
}

/// The offset of a line is that of its first character, and that of the next is one
/// behind its last.
proof fn lemma_line_bounds(text: Seq<char>, s: int, t: int)
    requires
        is_line(text, s, t),
    ensures
        line_offset(text, line_number(text, s)) == byte_len(text.take(s)),
        line_offset(text, line_number(text, s) + 1) == byte_len(text.take(t)) + if s < text.len() {
            1nat
        } else {
            0nat
        },
{
    let line = line_number(text, s);
    lemma_places_on_line(text, s, t, s);
    lemma_places_on_line(text, s, t, t);
    law_offset_round_trip(text, s);
    assert(line_head(text, s).len() == 0);
    if t < text.len() {
        law_next_position(text, t);
        law_offset_round_trip(text, t + 1);
        assert(line_head(text, t + 1).len() == 0);
        assert(text.take(t + 1).drop_last() =~= text.take(t));
        assert(text.take(t + 1).last() == '\n');
    } else {
        lemma_reached(text, t, 0);
        assert(text.take(t) =~= text);
        lemma_piece_count(text);
        lemma_all_bytes(text);
        assert(line == line_feeds(text) + 1);
        assert(tail_len(text) == t - s);
        assert(pieces(text, '\n').last().len() == t - s);
    }
}

/// A changed line belongs to what is named at its start, with the specifiers of an
/// export list that stand on the line: between its start and its end.
pub proof fn law_names_on_line(file: FileView, s: int, t: int, column: nat)
    requires
        is_line(file.source, s, t),
        s < file.source.len(),
    ensures
        names_on_line(file, line_number(file.source, s), column) == names_at(
            file.nodes,
            byte_len(file.source.take(s)) + column,
            byte_len(file.source.take(s)),
            byte_len(file.source.take(t)),
        ),
{
    lemma_line_bounds(file.source, s, t);
}

/// The empty line behind the last line feed, or of an empty text, belongs to what is
/// named at the end of the text.
pub proof fn law_names_on_last_line(file: FileView, column: nat)
    requires
        file.source.len() == 0 || file.source.last() == '\n',
    ensures
        ({
            let end = byte_len(file.source);
            names_on_line(file, line_feeds(file.source) + 1, column) == names_at(
                file.nodes,
                end + column,
                end,
                if end > 0 {
                    (end - 1) as nat
                } else {
                    0
                },
            )
        }),
{
    let n = file.source.len() as int;
    assert(is_line(file.source, n, n));
    lemma_line_bounds(file.source, n, n);
    lemma_reached(file.source, n, 0);
    assert(file.source.take(n) =~= file.source);
}

/// Line 0 is the start of the text, and a line behind the last is where the text ends,
/// or one further where its last line is not ended.
pub proof fn law_names_on_no_line(file: FileView, line: nat, column: nat)
    requires
        line > line_feeds(file.source) + 1,
    ensures
        names_on_line(file, 0, column) == names_at(file.nodes, column, 0, 0),
        ({
            let ended = file.source.len() == 0 || file.source.last() == '\n';
            let end = byte_len(file.source) + if ended {
                0nat
            } else {
                1nat
            };
            names_on_line(file, line, column) == names_at(
                file.nodes,
                end + column,
                end,
                if end > 0 {
                    (end - 1) as nat
                } else {
                    0
                },
            )
        }),
{
    law_far_line(file.source, line);
    law_far_line(file.source, line + 1);
}

/// A reference belongs to what is named one place further than its column, counted in
/// characters, from the start of its line, with the specifiers of an export list that
/// stand on its line. Behind plain characters that is one place further than it starts.
pub proof fn law_names_around(
    file: FileView,
    path: Seq<char>,
    s: int,
    t: int,
    at: int,
    offset: usize,
)
    requires
        is_line(file.source, s, t),
        s <= at <= t,
        s < file.source.len(),
        byte_len(file.source) < usize::MAX,
        byte_len(file.source.take(at)) == offset,
    ensures
        names_around(file, reference_at(file, path, offset)) == names_at(
            file.nodes,
            (byte_len(file.source.take(s)) + (at - s) + 1) as nat,
            byte_len(file.source.take(s)),
            byte_len(file.source.take(t)),
        ),
        (forall|k: int| s <= k < at ==> #[trigger] file.source[k] as u32 <= 0x7f) ==> names_around(
            file,
            reference_at(file, path, offset),
        ) == names_at(
            file.nodes,
            offset as nat + 1,
            byte_len(file.source.take(s)),
            byte_len(file.source.take(t)),
        ),
{
    lemma_line_bounds(file.source, s, t);
    lemma_places_on_line(file.source, s, t, at);
    lemma_place_bounds(file.source, at);
    if forall|k: int| s <= k < at ==> #[trigger] file.source[k] as u32 <= 0x7f {
        lemma_plain_bytes(file.source, s, at);
    }
}

/// Plain characters take a byte each.
proof fn lemma_plain_bytes(text: Seq<char>, s: int, at: int)
    requires
        0 <= s <= at <= text.len(),
        forall|k: int| s <= k < at ==> #[trigger] text[k] as u32 <= 0x7f,
    ensures
        byte_len(text.take(at)) == byte_len(text.take(s)) + (at - s),
    decreases at - s,
{
    if s < at {
        lemma_plain_bytes(text, s, at - 1);
        assert(text.take(at).drop_last() =~= text.take(at - 1));
        assert(text.take(at).last() == text[at - 1]);
    }
}

} // verus!
