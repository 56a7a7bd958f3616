//! Lines as bytes: searching for a byte, comparing slices, cutting a line
//! into its comma-separated segments, and telling whether bytes are UTF-8
//! text.

use vstd::prelude::*;

verus! {

/// The byte that separates two segments.
pub const COMMA: u8 = 0x2c;

/// The byte that separates a key from its value.
pub const EQUALS: u8 = 0x3d;

/// The bytes of a text whose characters are all ASCII.
pub open spec fn ascii_bytes(text: Seq<char>) -> Seq<u8> {
    Seq::new(text.len(), |i: int| text[i] as u8)
}

/// Index of the first occurrence of `byte` in `s`, or `s.len()` when `s`
/// does not hold it.
pub open spec fn position(s: Seq<u8>, byte: u8) -> int
    decreases s.len(),
{
    if s.len() == 0 || s[0] == byte {
        0
    } else {
        1 + position(s.drop_first(), byte)
    }
}

/// `position` is the least index that holds `byte`.
pub proof fn lemma_position(s: Seq<u8>, byte: u8)
    ensures
        0 <= position(s, byte) <= s.len(),
        position(s, byte) < s.len() ==> s[position(s, byte)] == byte,
        forall|j: int| 0 <= j < position(s, byte) ==> s[j] != byte,
        position(s, byte) == s.len() <==> !s.contains(byte),
    decreases s.len(),
{
    if s.len() == 0 || s[0] == byte {
    } else {
        let rest = s.drop_first();
        lemma_position(rest, byte);
        assert forall|j: int| 0 <= j < position(s, byte) implies s[j] != byte by {
            if j > 0 {
                assert(s[j] == rest[j - 1]);
            }
        }
        if position(s, byte) < s.len() {
            assert(s[position(s, byte)] == rest[position(rest, byte)]);
        }
        if s.contains(byte) {
            let k = choose|k: int| 0 <= k < s.len() && s[k] == byte;
            assert(rest[k - 1] == byte);
        }
    }
}

/// An index that holds `byte` with none before it is the `position`.
pub proof fn lemma_position_is(s: Seq<u8>, byte: u8, at: int)
    requires
        0 <= at <= s.len(),
        forall|j: int| 0 <= j < at ==> s[j] != byte,
        at < s.len() ==> s[at] == byte,
    ensures
        position(s, byte) == at,
{
    lemma_position(s, byte);
    let p = position(s, byte);
    if p < at {
        assert(s[p] == byte);
    } else if p > at {
        assert(s[at] == byte);
    }
}

/// Finds the first occurrence of `byte` at or after `from`.
pub fn find_byte(bytes: &[u8], from: usize, byte: u8) -> (at: usize)
    requires
        from <= bytes@.len(),
    ensures
        at == from + position(bytes@.skip(from as int), byte),
        from <= at <= bytes@.len(),
{
    let mut at: usize = from;
    while at < bytes.len() && bytes[at] != byte
        invariant
            from <= at <= bytes@.len(),
            forall|j: int| from <= j < at ==> bytes@[j] != byte,
        decreases bytes@.len() - at,
    {
        at += 1;
    }
    proof {
        lemma_position_is(bytes@.skip(from as int), byte, at - from);
    }
    at
}

/// Whether two slices hold the same bytes.
pub fn same_bytes(a: &[u8], b: &[u8]) -> (same: bool)
    ensures
        same == (a@ == b@),
{
    if a.len() != b.len() {
        return false;
    }
    let mut i: usize = 0;
    while i < a.len()
        invariant
            a@.len() == b@.len(),
            i <= a@.len(),
            forall|j: int| 0 <= j < i ==> a@[j] == b@[j],
        decreases a@.len() - i,
    {
        if a[i] != b[i] {
            return false;
        }
        i += 1;
    }
    assert(a@ =~= b@);
    true
}

/// The comma-separated segments of a line, in order. A line without a comma
/// is one segment; an empty line is one empty segment.
pub open spec fn segments(line: Seq<u8>) -> Seq<Seq<u8>>
    decreases line.len(),
{
    let at = position(line, COMMA);
    if 0 <= at < line.len() {
        seq![line.take(at)] + segments(line.skip(at + 1))
    } else {
        seq![line]
    }
}

/// A line without a comma is its own single segment.
pub proof fn lemma_segments_of_piece(piece: Seq<u8>)
    requires
        !piece.contains(COMMA),
    ensures
        segments(piece) == seq![piece],
{
    lemma_position(piece, COMMA);
}

/// No segment holds a comma, and there is always at least one segment.
pub proof fn lemma_segments_hold_no_comma(line: Seq<u8>)
    ensures
        segments(line).len() >= 1,
        comma_free(segments(line)),
    decreases line.len(),
{
    lemma_position(line, COMMA);
    let at = position(line, COMMA);
    if 0 <= at < line.len() {
        let head = line.take(at);
        let rest = segments(line.skip(at + 1));
        lemma_segments_hold_no_comma(line.skip(at + 1));
        if head.contains(COMMA) {
            let k = choose|k: int| 0 <= k < head.len() && head[k] == COMMA;
            assert(line[k] == COMMA);
        }
        assert forall|i: int| 0 <= i < segments(line).len() implies !(#[trigger] segments(
            line,
        )[i]).contains(COMMA) by {
            if i > 0 {
                assert(segments(line)[i] == rest[i - 1]);
            }
        }
    }
}

/// Two lines joined by a comma have the segments of the first followed by
/// those of the second.
pub proof fn lemma_segments_of_joined(left: Seq<u8>, right: Seq<u8>)
    ensures
        segments(left + seq![COMMA] + right) == segments(left) + segments(right),
    decreases left.len(),
{
    let line = left + seq![COMMA] + right;
    lemma_position(left, COMMA);
    let at = position(left, COMMA);
    if 0 <= at < left.len() {
        assert forall|j: int| 0 <= j < at implies line[j] != COMMA by {
            assert(line[j] == left[j]);
        }
        assert(line[at] == left[at]);
        lemma_position_is(line, COMMA, at);
        assert(line.take(at) =~= left.take(at));
        assert(line.skip(at + 1) =~= left.skip(at + 1) + seq![COMMA] + right);
        lemma_segments_of_joined(left.skip(at + 1), right);
        assert(segments(line) =~= segments(left) + segments(right));
    } else {
        let n = left.len() as int;
        assert forall|j: int| 0 <= j < n implies line[j] != COMMA by {
            assert(line[j] == left[j]);
        }
        assert(line[n] == COMMA);
        lemma_position_is(line, COMMA, n);
        assert(line.take(n) =~= left);
        assert(line.skip(n + 1) =~= right);
        assert(segments(line) =~= segments(left) + segments(right));
    }
}

/// The line that holds the given segments, in order, with a comma between
/// each two. Joining no segments gives the empty line.
pub open spec fn joined(pieces: Seq<Seq<u8>>) -> Seq<u8>
    decreases pieces.len(),
{
    if pieces.len() == 0 {
        Seq::empty()
    } else if pieces.len() == 1 {
        pieces[0]
    } else {
        joined(pieces.drop_last()) + seq![COMMA] + pieces.last()
    }
}

/// Whether no piece holds a comma.
pub open spec fn comma_free(pieces: Seq<Seq<u8>>) -> bool {
    forall|i: int| 0 <= i < pieces.len() ==> !(#[trigger] pieces[i]).contains(COMMA)
}

/// Cutting a joined line gives back the pieces it was joined from.
pub proof fn lemma_segments_of_joined_pieces(pieces: Seq<Seq<u8>>)
    requires
        pieces.len() >= 1,
        comma_free(pieces),
    ensures
        segments(joined(pieces)) == pieces,
    decreases pieces.len(),
{
    if pieces.len() == 1 {
        lemma_segments_of_piece(pieces[0]);
        assert(seq![pieces[0]] =~= pieces);
    } else {
        let front = pieces.drop_last();
        assert forall|i: int| 0 <= i < front.len() implies !(#[trigger] front[i]).contains(
            COMMA,
        ) by {
            assert(front[i] == pieces[i]);
        }
        lemma_segments_of_joined_pieces(front);
        lemma_segments_of_joined(joined(front), pieces.last());
        lemma_segments_of_piece(pieces.last());
        assert(front + seq![pieces.last()] =~= pieces);
    }
}

/// Joining a piece in front of others puts it, and a comma, before their
/// joined line.
pub proof fn lemma_joined_front(head: Seq<u8>, rest: Seq<Seq<u8>>)
    requires
        rest.len() >= 1,
    ensures
        joined(seq![head] + rest) == head + seq![COMMA] + joined(rest),
    decreases rest.len(),
{
    let all = seq![head] + rest;
    if rest.len() == 1 {
        assert(all.drop_last() =~= seq![head]);
        assert(joined(all.drop_last()) == head);
        assert(all.last() == rest[0]);
    } else {
        assert(all.drop_last() =~= seq![head] + rest.drop_last());
        lemma_joined_front(head, rest.drop_last());
        assert(all.last() == rest.last());
        assert(joined(all) =~= head + seq![COMMA] + joined(rest));
    }
}

/// Joining the segments of a line gives back the line.
pub proof fn lemma_joined_segments(line: Seq<u8>)
    ensures
        joined(segments(line)) == line,
    decreases line.len(),
{
    lemma_position(line, COMMA);
    let at = position(line, COMMA);
    if 0 <= at < line.len() {
        let rest = line.skip(at + 1);
        lemma_joined_segments(rest);
        lemma_segments_hold_no_comma(rest);
        lemma_joined_front(line.take(at), segments(rest));
        assert(line.take(at) + seq![COMMA] + rest =~= line);
    }
}

/// Bytes below 128 are valid UTF-8 text.
pub proof fn lemma_ascii_is_utf8(s: Seq<u8>)
    requires
        forall|i: int| 0 <= i < s.len() ==> #[trigger] s[i] < 0x80,
    ensures
        vstd::utf8::valid_utf8(s),
{
    assert forall|i: int| 0 <= i < s.len() implies #[trigger] vstd::utf8::is_leading_byte_width_1(
        s[i],
    ) by {
        vstd::utf8::utf8_byte_ranges_bitwise(s[i]);
    }
    assert(s.subrange(0, 0) =~= Seq::<u8>::empty());
    assert(vstd::utf8::partial_valid_utf8(s, 0));
    vstd::utf8::partial_valid_utf8_extend_ascii_block(s, 0, s.len() as int);
    assert(s.subrange(0, s.len() as int) =~= s);
}

/// Two lines joined by a comma are UTF-8 text exactly when both are.
pub proof fn lemma_utf8_of_joined(left: Seq<u8>, right: Seq<u8>)
    ensures
        vstd::utf8::valid_utf8(left + seq![COMMA] + right) <==> vstd::utf8::valid_utf8(left)
            && vstd::utf8::valid_utf8(right),
{
    let comma = seq![COMMA];
    let line = left + comma + right;
    let tail = comma + right;
    let n = left.len() as int;
    assert(line =~= left + tail);
    vstd::utf8::utf8_byte_ranges_bitwise(COMMA);
    assert(vstd::utf8::is_leading_byte_width_1(tail[0]));
    assert(vstd::utf8::pop_first_scalar(tail) =~= right);
    assert(vstd::utf8::valid_first_scalar(tail));
    assert(vstd::utf8::valid_utf8(tail) <==> vstd::utf8::valid_utf8(right));
    if vstd::utf8::valid_utf8(left) && vstd::utf8::valid_utf8(right) {
        vstd::utf8::valid_utf8_concat(left, tail);
    }
    if vstd::utf8::valid_utf8(line) {
        assert(line[n] == COMMA);
        vstd::utf8::is_char_boundary_iff_is_leading_byte(line, n);
        vstd::utf8::valid_utf8_split(line, n);
        assert(line.subrange(0, n) =~= left);
        assert(line.subrange(n, line.len() as int) =~= tail);
    }
}

/// A joined line is UTF-8 text exactly when every piece is.
pub proof fn lemma_utf8_of_pieces(pieces: Seq<Seq<u8>>)
    ensures
        vstd::utf8::valid_utf8(joined(pieces)) <==> forall|i: int|
            0 <= i < pieces.len() ==> vstd::utf8::valid_utf8(#[trigger] pieces[i]),
    decreases pieces.len(),
{
    if pieces.len() == 0 {
    } else if pieces.len() == 1 {
    } else {
        let front = pieces.drop_last();
        lemma_utf8_of_pieces(front);
        lemma_utf8_of_joined(joined(front), pieces.last());
        if vstd::utf8::valid_utf8(joined(pieces)) {
            assert forall|i: int| 0 <= i < pieces.len() implies vstd::utf8::valid_utf8(
                #[trigger] pieces[i],
            ) by {
                if i < front.len() {
                    assert(front[i] == pieces[i]);
                }
            }
        }
        if forall|i: int| 0 <= i < pieces.len() ==> vstd::utf8::valid_utf8(#[trigger] pieces[i]) {
            assert forall|i: int| 0 <= i < front.len() implies vstd::utf8::valid_utf8(
                #[trigger] front[i],
            ) by {
                assert(front[i] == pieces[i]);
            }
            assert(vstd::utf8::valid_utf8(pieces.last()));
        }
    }
}

/// The number of bytes of the scalar value that is encoded at `at`, or 0
/// where no well-formed encoding of one starts there: a leading byte with
/// its continuation bytes, not overlong and no surrogate.
pub fn scalar_width(bytes: &[u8], at: usize) -> (width: usize)
    requires
        at < bytes@.len(),
    ensures
        width == if vstd::utf8::valid_first_scalar(bytes@.skip(at as int)) {
            vstd::utf8::length_of_first_scalar(bytes@.skip(at as int))
        } else {
            0
        },
        at + width <= bytes@.len(),
{
    let left = bytes.len() - at;
    let b0 = bytes[at];
    if b0 <= 0x7f {
        1
    } else if 0xc0 <= b0 && b0 <= 0xdf {
        if left < 2 {
            return 0;
        }
        let b1 = bytes[at + 1];
        if !is_continuation(b1) {
            return 0;
        }
        let scalar: u32 = (((b0 & 0x1f) as u32) << 6) | ((b1 & 0x3f) as u32);
        if scalar < 0x80 || is_surrogate(scalar) {
            return 0;
        }
        2
    } else if 0xe0 <= b0 && b0 <= 0xef {
        if left < 3 {
            return 0;
        }
        let b1 = bytes[at + 1];
        let b2 = bytes[at + 2];
        if !is_continuation(b1) || !is_continuation(b2) {
            return 0;
        }
        let scalar: u32 = (((b0 & 0x0f) as u32) << 12) | (((b1 & 0x3f) as u32) << 6) | ((b2
            & 0x3f) as u32);
        if scalar < 0x800 || is_surrogate(scalar) {
            return 0;
        }
        3
    } else if 0xf0 <= b0 && b0 <= 0xf7 {
        if left < 4 {
            return 0;
        }
        let b1 = bytes[at + 1];
        let b2 = bytes[at + 2];
        let b3 = bytes[at + 3];
        if !is_continuation(b1) || !is_continuation(b2) || !is_continuation(b3) {
            return 0;
        }
        let scalar: u32 = (((b0 & 0x07) as u32) << 18) | (((b1 & 0x3f) as u32) << 12) | (((b2
            & 0x3f) as u32) << 6) | ((b3 & 0x3f) as u32);
        if scalar < 0x10000 || scalar > 0x10ffff || is_surrogate(scalar) {
            return 0;
        }
        4
    } else {
        0
    }
}

/// Whether a byte is a continuation byte of a UTF-8 encoding.
pub fn is_continuation(byte: u8) -> (continuation: bool)
    ensures
        continuation == vstd::utf8::is_continuation_byte(byte),
{
    0x80 <= byte && byte <= 0xbf
}

/// Whether a value lies in the range of the surrogates, which are no scalar
/// values.
pub fn is_surrogate(value: u32) -> (surrogate: bool)
    ensures
        surrogate == !vstd::utf8::not_surrogate(value),
{
    0xd800 <= value && value <= 0xdfff
}

/// Whether the bytes are valid UTF-8 text.
pub fn is_utf8(bytes: &[u8]) -> (valid: bool)
    ensures
        valid == vstd::utf8::valid_utf8(bytes@),
{
    let mut at: usize = 0;
    assert(bytes@.subrange(0, 0) =~= Seq::<u8>::empty());
    while at < bytes.len()
        invariant
            at <= bytes@.len(),
            vstd::utf8::partial_valid_utf8(bytes@, at as int),
        decreases bytes@.len() - at,
    {
        let width = scalar_width(bytes, at);
        if width == 0 {
            proof {
                vstd::utf8::partial_valid_partial_invalid_utf8(bytes@, at as int);
            }
            return false;
        }
        proof {
            vstd::utf8::partial_valid_utf8_extend(bytes@, at as int);
        }
        at += width;
    }
    assert(bytes@.subrange(0, at as int) =~= bytes@);
    true
}

} // verus!
