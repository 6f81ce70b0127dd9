//! Text as sequences of characters: the searches, splits and orders that the
//! rest of the library states its results with.
use vstd::prelude::*;

verus! {

/// `String::push` appends one character at the end of the text.
pub assume_specification[ String::push ](text: &mut String, c: char)
    ensures
        final(text)@ == old(text)@.push(c),
;

/// The characters of a text, in order.
pub fn chars_of(text: &str) -> (chars: Vec<char>)
    ensures
        chars@ == text@,
{
    let mut chars: Vec<char> = Vec::new();
    for c in it: text.chars()
        invariant
            chars@ == text@.take(it.index() as int),
            it.seq() == text@,
    {
        chars.push(c);
    }
    proof {
        assert(text@.take(text@.len() as int) =~= text@);
    }
    chars
}

/// The text made of the characters from `from` up to, but without, `to`.
pub fn text_of(chars: &Vec<char>, from: usize, to: usize) -> (text: String)
    requires
        from <= to <= chars@.len(),
    ensures
        text@ == chars@.subrange(from as int, to as int),
{
    let mut text: String = String::new();
    let mut i: usize = from;
    while i < to
        invariant
            from <= i <= to <= chars@.len(),
            text@ == chars@.subrange(from as int, i as int),
        decreases to - i,
    {
        text.push(chars[i]);
        proof {
            assert(chars@.subrange(from as int, i as int).push(chars@[i as int])
                =~= chars@.subrange(from as int, i + 1));
        }
        i = i + 1;
    }
    text
}

/// Whether two texts hold the same characters.
pub fn same(a: &str, b: &str) -> (r: bool)
    ensures
        r == (a@ == b@),
{
    let left: &[u8] = a.as_bytes();
    let right: &[u8] = b.as_bytes();
    proof {
        vstd::utf8::encode_utf8_decode_utf8(a@);
        vstd::utf8::encode_utf8_decode_utf8(b@);
    }
    if left.len() != right.len() {
        return false;
    }
    let mut i: usize = 0;
    while i < left.len()
        invariant
            left@ == vstd::utf8::encode_utf8(a@),
            right@ == vstd::utf8::encode_utf8(b@),
            left@.len() == right@.len(),
            i <= left@.len(),
            forall|k: int| 0 <= k < i ==> left@[k] == right@[k],
        decreases left@.len() - i,
    {
        if left[i] != right[i] {
            return false;
        }
        i = i + 1;
    }
    proof {
        assert(left@ =~= right@);
    }
    true
}

/// Whether `wanted` stands in `chars` from position `at` on.
pub open spec fn stands_at(chars: Seq<char>, wanted: Seq<char>, at: int) -> bool {
    at + wanted.len() <= chars.len() && chars.subrange(at, at + wanted.len()) == wanted
}

/// Whether `wanted` stands in `chars` from position `at` on.
pub fn occurs_at(chars: &Vec<char>, wanted: &Vec<char>, at: usize) -> (r: bool)
    requires
        at <= chars@.len(),
    ensures
        r == stands_at(chars@, wanted@, at as int),
        at == 0 ==> r == wanted@.is_prefix_of(chars@),
{
    if chars.len() - at < wanted.len() {
        return false;
    }
    let limit: usize = chars.len();
    let mut i: usize = 0;
    while i < wanted.len()
        invariant
            limit == chars@.len(),
            at + wanted@.len() <= chars@.len(),
            i <= wanted@.len(),
            forall|k: int| 0 <= k < i ==> chars@[at + k] == wanted@[k],
        decreases wanted@.len() - i,
    {
        if chars[at + i] != wanted[i] {
            proof {
                assert(chars@.subrange(at as int, at + wanted@.len())[i as int] != wanted@[i as int]);
            }
            return false;
        }
        i = i + 1;
    }
    proof {
        assert(chars@.subrange(at as int, at + wanted@.len()) =~= wanted@);
    }
    true
}

/// Whether `wanted` stands somewhere in `text`.
pub open spec fn holds_text(text: Seq<char>, wanted: Seq<char>) -> bool {
    exists|at: int| 0 <= at && #[trigger] stands_at(text, wanted, at)
}

/// Whether `wanted` stands somewhere in `text`.
pub fn contains_text(text: &str, wanted: &str) -> (r: bool)
    ensures
        r == holds_text(text@, wanted@),
{
    let chars: Vec<char> = chars_of(text);
    let needle: Vec<char> = chars_of(wanted);
    let mut at: usize = 0;
    while at < chars.len()
        invariant
            chars@ == text@,
            needle@ == wanted@,
            at <= chars@.len(),
            forall|k: int| 0 <= k < at ==> !#[trigger] stands_at(text@, wanted@, k),
        decreases chars@.len() - at,
    {
        if occurs_at(&chars, &needle, at) {
            return true;
        }
        at = at + 1;
    }
    let last: bool = occurs_at(&chars, &needle, at);
    last
}

/// Whether the character `c` stands in `text`.
pub fn contains_char(text: &str, c: char) -> (r: bool)
    ensures
        r == text@.contains(c),
{
    let chars: Vec<char> = chars_of(text);
    let mut i: usize = 0;
    while i < chars.len()
        invariant
            chars@ == text@,
            i <= chars@.len(),
            forall|k: int| 0 <= k < i ==> chars@[k] != c,
        decreases chars@.len() - i,
    {
        if chars[i] == c {
            return true;
        }
        i = i + 1;
    }
    false
}

/// What is left of `text` behind `prefix`, where it begins with it.
pub open spec fn without_prefix(text: Seq<char>, prefix: Seq<char>) -> Option<Seq<char>> {
    if prefix.is_prefix_of(text) {
        Some(text.skip(prefix.len() as int))
    } else {
        None
    }
}

/// What is left of `text` behind `prefix`, where it begins with it.
pub fn strip_prefix(text: &str, prefix: &str) -> (r: Option<String>)
    ensures
        match r {
            Some(rest) => without_prefix(text@, prefix@) == Some(rest@),
            None => without_prefix(text@, prefix@) is None,
        },
{
    let chars: Vec<char> = chars_of(text);
    let wanted: Vec<char> = chars_of(prefix);
    if occurs_at(&chars, &wanted, 0) {
        Some(text_of(&chars, wanted.len(), chars.len()))
    } else {
        None
    }
}

/// What is left of `text` before `suffix`, where it ends with it.
pub open spec fn without_suffix(text: Seq<char>, suffix: Seq<char>) -> Option<Seq<char>> {
    if suffix.len() <= text.len() && stands_at(text, suffix, text.len() - suffix.len()) {
        Some(text.take(text.len() - suffix.len()))
    } else {
        None
    }
}

/// What is left of `text` before `suffix`, where it ends with it.
pub fn strip_suffix(text: &str, suffix: &str) -> (r: Option<String>)
    ensures
        match r {
            Some(rest) => without_suffix(text@, suffix@) == Some(rest@),
            None => without_suffix(text@, suffix@) is None,
        },
{
    let chars: Vec<char> = chars_of(text);
    let wanted: Vec<char> = chars_of(suffix);
    if wanted.len() <= chars.len() && occurs_at(&chars, &wanted, chars.len() - wanted.len()) {
        Some(text_of(&chars, 0, chars.len() - wanted.len()))
    } else {
        None
    }
}

/// The pieces of `text` between the occurrences of `separator`; one more than
/// there are occurrences.
pub open spec fn pieces(text: Seq<char>, separator: char) -> Seq<Seq<char>>
    decreases text.len(),
{
    if text.len() == 0 {
        seq![Seq::empty()]
    } else {
        let before = pieces(text.drop_last(), separator);
        if text.last() == separator {
            before.push(Seq::empty())
        } else {
            before.drop_last().push(before.last().push(text.last()))
        }
    }
}

/// There is always at least one piece.
pub proof fn lemma_pieces_nonempty(text: Seq<char>, separator: char)
    ensures
        pieces(text, separator).len() >= 1,
    decreases text.len(),
{
    if text.len() > 0 {
        lemma_pieces_nonempty(text.drop_last(), separator);
    }
}

/// The texts that a vector of strings holds, as character sequences.
pub open spec fn texts(strings: Seq<String>) -> Seq<Seq<char>> {
    strings.map_values(|s: String| s@)
}

/// The pieces of `text` between the occurrences of `separator`.
pub fn split(text: &str, separator: char) -> (r: Vec<String>)
    ensures
        texts(r@) == pieces(text@, separator),
{
    let chars: Vec<char> = chars_of(text);
    let mut r: Vec<String> = Vec::new();
    let mut current: String = String::new();
    let mut i: usize = 0;
    while i < chars.len()
        invariant
            chars@ == text@,
            i <= chars@.len(),
            texts(r@).push(current@) == pieces(text@.take(i as int), separator),
        decreases chars@.len() - i,
    {
        let c: char = chars[i];
        proof {
            assert(text@.take(i + 1).drop_last() =~= text@.take(i as int));
            assert(text@.take(i + 1).last() == c);
            assert(texts(r@).push(current@).drop_last() =~= texts(r@));
        }
        if c == separator {
            let ghost before = r@;
            r.push(current);
            proof {
                assert(texts(r@) =~= texts(before).push(current@));
            }
            current = String::new();
        } else {
            current.push(c);
        }
        i = i + 1;
    }
    proof {
        assert(text@.take(text@.len() as int) =~= text@);
    }
    let ghost before = r@;
    r.push(current);
    proof {
        assert(texts(r@) =~= texts(before).push(current@));
    }
    r
}

/// The lexicographic order of number sequences: the first difference decides,
/// and a proper beginning comes first.
pub open spec fn precedes(a: Seq<int>, b: Seq<int>) -> bool
    decreases a.len(),
{
    if b.len() == 0 {
        false
    } else if a.len() == 0 {
        true
    } else if a[0] != b[0] {
        a[0] < b[0]
    } else {
        precedes(a.skip(1), b.skip(1))
    }
}

/// The code points of a text.
pub open spec fn codes(text: Seq<char>) -> Seq<int> {
    text.map_values(|c: char| c as int)
}

/// Nothing precedes itself.
pub proof fn lemma_precedes_irreflexive(a: Seq<int>)
    ensures
        !precedes(a, a),
    decreases a.len(),
{
    if a.len() > 0 {
        lemma_precedes_irreflexive(a.skip(1));
    }
}

/// Of two different sequences one precedes the other.
pub proof fn lemma_precedes_total(a: Seq<int>, b: Seq<int>)
    requires
        a != b,
    ensures
        precedes(a, b) || precedes(b, a),
    decreases a.len(),
{
    if a.len() > 0 && b.len() > 0 && a[0] == b[0] {
        if a.skip(1) == b.skip(1) {
            assert(a =~= seq![a[0]] + a.skip(1));
            assert(b =~= seq![b[0]] + b.skip(1));
        }
        lemma_precedes_total(a.skip(1), b.skip(1));
    } else if a.len() == 0 && b.len() == 0 {
        assert(a =~= b);
    }
}

/// The order is transitive.
pub proof fn lemma_precedes_transitive(a: Seq<int>, b: Seq<int>, c: Seq<int>)
    requires
        precedes(a, b),
        precedes(b, c),
    ensures
        precedes(a, c),
    decreases a.len(),
{
    if a.len() > 0 && b.len() > 0 && c.len() > 0 && a[0] == b[0] && b[0] == c[0] {
        lemma_precedes_transitive(a.skip(1), b.skip(1), c.skip(1));
    }
}

/// How two number sequences stand to each other.
pub enum Compared {
    Less,
    Same,
    Greater,
}

/// The numbers of a key.
pub open spec fn numbers(key: Seq<u64>) -> Seq<int> {
    key.map_values(|n: u64| n as int)
}

/// How two keys stand to each other.
pub fn compare(a: &Vec<u64>, b: &Vec<u64>) -> (r: Compared)
    ensures
        match r {
            Compared::Less => precedes(numbers(a@), numbers(b@)),
            Compared::Same => numbers(a@) == numbers(b@),
            Compared::Greater => precedes(numbers(b@), numbers(a@)),
        },
{
    let mut i: usize = 0;
    let ghost x = numbers(a@);
    let ghost y = numbers(b@);
    proof {
        assert(x.skip(0) =~= x);
        assert(y.skip(0) =~= y);
    }
    while i < a.len() && i < b.len()
        invariant
            x == numbers(a@),
            y == numbers(b@),
            i <= a@.len(),
            i <= b@.len(),
            forall|k: int| 0 <= k < i ==> x[k] == y[k],
            precedes(x, y) == precedes(x.skip(i as int), y.skip(i as int)),
            precedes(y, x) == precedes(y.skip(i as int), x.skip(i as int)),
        decreases a@.len() - i,
    {
        proof {
            assert(x.skip(i as int)[0] == x[i as int]);
            assert(y.skip(i as int)[0] == y[i as int]);
            assert(x.skip(i as int).skip(1) =~= x.skip(i + 1));
            assert(y.skip(i as int).skip(1) =~= y.skip(i + 1));
        }
        if a[i] < b[i] {
            return Compared::Less;
        }
        if b[i] < a[i] {
            return Compared::Greater;
        }
        i = i + 1;
    }
    if i < b.len() {
        Compared::Less
    } else if i < a.len() {
        Compared::Greater
    } else {
        proof {
            assert(x =~= y);
        }
        Compared::Same
    }
}

/// How many bytes a character takes in UTF-8.
pub open spec fn width(c: char) -> nat {
    if c as u32 <= 0x7f {
        1
    } else if c as u32 <= 0x7ff {
        2
    } else if c as u32 <= 0xffff {
        3
    } else {
        4
    }
}

/// How many bytes a text takes in UTF-8.
pub open spec fn byte_len(text: Seq<char>) -> nat
    decreases text.len(),
{
    if text.len() == 0 {
        0
    } else {
        byte_len(text.drop_last()) + width(text.last())
    }
}

/// A text takes as many bytes as its first character and its rest.
proof fn lemma_byte_len_first(text: Seq<char>)
    requires
        text.len() > 0,
    ensures
        byte_len(text) == width(text[0]) + byte_len(text.drop_first()),
    decreases text.len(),
{
    if text.len() == 1 {
        assert(text.drop_first() =~= Seq::<char>::empty());
        assert(text.drop_last() =~= Seq::<char>::empty());
    } else {
        lemma_byte_len_first(text.drop_last());
        assert(text.drop_last().drop_first() =~= text.drop_first().drop_last());
        assert(text.drop_first().last() == text.last());
    }
}

/// The bytes of a text are those of its UTF-8 encoding.
pub proof fn lemma_byte_len(text: Seq<char>)
    ensures
        byte_len(text) == vstd::utf8::encode_utf8(text).len(),
    decreases text.len(),
{
    if text.len() > 0 {
        lemma_byte_len_first(text);
        lemma_byte_len(text.drop_first());
        let first = vstd::utf8::encode_scalar(text[0] as u32);
        vstd::utf8::char_is_scalar(text[0]);
        assert(first.len() == width(text[0]));
        assert(vstd::utf8::encode_utf8(text) == first + vstd::utf8::encode_utf8(text.drop_first()));
    } else {
        assert(vstd::utf8::encode_utf8(text) =~= Seq::<u8>::empty());
    }
}

/// A longer beginning of a text takes more bytes.
pub proof fn lemma_byte_len_grows(text: Seq<char>, from: int, to: int)
    requires
        0 <= from <= to <= text.len(),
    ensures
        byte_len(text.take(from)) + (to - from) <= byte_len(text.take(to)),
    decreases to - from,
{
    if from < to {
        lemma_byte_len_grows(text, from, to - 1);
        assert(text.take(to).drop_last() =~= text.take(to - 1));
    }
}

/// How many bytes a character takes in UTF-8.
pub fn width_of(c: char) -> (r: usize)
    ensures
        r == width(c),
        1 <= r <= 4,
{
    let code: u32 = c as u32;
    if code <= 0x7f {
        1
    } else if code <= 0x7ff {
        2
    } else if code <= 0xffff {
        3
    } else {
        4
    }
}

} // verus!
