//! What holds of decoding for every parameter line.

use crate::address::address_of_text;
use crate::error::DecodeError;
use crate::field::{field_of_key, lemma_field_of_own_key, Field};
use crate::number::{
    decimal_text, lemma_decimal_text_reads_back, lemma_number_text_is_plain, u32_of_text,
};
use crate::params::{
    collected, decode_result, entry_of, first_malformed, last_value, lemma_first_malformed_concat,
    lemma_collected_push, lemma_first_malformed_none, lemma_last_value_at, lemma_last_value_concat,
    malformed_in,
    pair_of, segments_result, ParamsModel,
};
use crate::text::{
    comma_free, joined, lemma_ascii_is_utf8, lemma_joined_segments, lemma_position,
    lemma_position_is, lemma_segments_hold_no_comma, lemma_segments_of_joined_pieces,
    lemma_utf8_of_pieces, position, segments, COMMA, EQUALS,
};
use vstd::prelude::*;
use vstd::utf8::valid_utf8;

verus! {

/// The segment that sets `field` to the value that `value` denotes.
pub open spec fn entry_text(field: Field, value: Seq<u8>) -> Seq<u8> {
    field.key_bytes() + seq![EQUALS] + value
}

/// The line that sets each of the seven fields once, from the texts of
/// their values.
pub open spec fn rendered(
    program_id: Seq<u8>,
    lower_bound: Seq<u8>,
    upper_bound: Seq<u8>,
    user: Seq<u8>,
    realm_pda: Seq<u8>,
    user_account_pda: Seq<u8>,
    spaceship_pda: Seq<u8>,
) -> Seq<u8> {
    joined(
        seq![
            entry_text(Field::ProgramId, program_id),
            entry_text(Field::LowerBound, lower_bound),
            entry_text(Field::UpperBound, upper_bound),
            entry_text(Field::User, user),
            entry_text(Field::RealmPda, realm_pda),
            entry_text(Field::UserAccountPda, user_account_pda),
            entry_text(Field::SpaceshipPda, spaceship_pda),
        ],
    )
}

/// Whether a text can stand as a value in a line: it is UTF-8 text and
/// holds no comma.
pub open spec fn fits_in_line(value: Seq<u8>) -> bool {
    valid_utf8(value) && !value.contains(COMMA)
}

/// Whether a decoding failed on a malformed value.
pub open spec fn is_malformed_field(result: Result<ParamsModel, DecodeError>) -> bool {
    match result {
        Err(DecodeError::MalformedField(_)) => true,
        _ => false,
    }
}

/// A segment is cut at its first `=` only: the value may hold `=` itself,
/// and every later `=` stays part of the value.
pub proof fn law_value_may_hold_equals(key: Seq<u8>, value: Seq<u8>)
    requires
        !key.contains(EQUALS),
    ensures
        pair_of(key + seq![EQUALS] + value) == Some((key, value)),
{
    let segment = key + seq![EQUALS] + value;
    let n = key.len() as int;
    assert forall|j: int| 0 <= j < n implies segment[j] != EQUALS by {
        assert(segment[j] == key[j]);
    }
    assert(segment[n] == EQUALS);
    lemma_position_is(segment, EQUALS, n);
    assert(segment.take(n) =~= key);
    assert(segment.skip(n + 1) =~= value);
}

/// The segment made of a field's key, `=` and a value sets that field to
/// that value, and fits in a line where the value does.
pub proof fn lemma_entry_text(field: Field, value: Seq<u8>)
    ensures
        entry_of(entry_text(field, value)) == Some((field, value)),
        !value.contains(COMMA) ==> !entry_text(field, value).contains(COMMA),
        valid_utf8(value) ==> valid_utf8(entry_text(field, value)),
{
    let key = field.key_bytes();
    let head = key + seq![EQUALS];
    let segment = entry_text(field, value);
    lemma_field_of_own_key(field);
    law_value_may_hold_equals(key, value);
    if !value.contains(COMMA) && segment.contains(COMMA) {
        let k = choose|k: int| 0 <= k < segment.len() && segment[k] == COMMA;
        if k < key.len() {
            assert(key[k] == COMMA);
        } else if k > key.len() {
            assert(value[k - key.len() - 1] == COMMA);
        }
    }
    if valid_utf8(value) {
        assert forall|i: int| 0 <= i < head.len() implies #[trigger] head[i] < 0x80 by {
            if i < key.len() {
                assert(head[i] == key[i]);
            }
        }
        lemma_ascii_is_utf8(head);
        vstd::utf8::valid_utf8_concat(head, value);
    }
}

/// Round trip: a line that sets each field once, by a text that denotes the
/// field's value, decodes to exactly those values, provided the values pass
/// the validation of required fields. The text of a number is any text that
/// denotes it; the text of an address is any text that denotes it and fits
/// in a line.
pub proof fn law_round_trip(
    params: ParamsModel,
    program_id: Seq<u8>,
    lower_bound: Seq<u8>,
    upper_bound: Seq<u8>,
    user: Seq<u8>,
    realm_pda: Seq<u8>,
    user_account_pda: Seq<u8>,
    spaceship_pda: Seq<u8>,
)
    requires
        params.first_missing() is None,
        address_of_text(program_id) == Some(params.program_id),
        u32_of_text(lower_bound) == Some(params.lower_bound),
        u32_of_text(upper_bound) == Some(params.upper_bound),
        address_of_text(user) == Some(params.user),
        address_of_text(realm_pda) == Some(params.realm_pda),
        address_of_text(user_account_pda) == Some(params.user_account_pda),
        address_of_text(spaceship_pda) == Some(params.spaceship_pda),
        fits_in_line(program_id),
        fits_in_line(user),
        fits_in_line(realm_pda),
        fits_in_line(user_account_pda),
        fits_in_line(spaceship_pda),
    ensures
        decode_result(
            rendered(
                program_id,
                lower_bound,
                upper_bound,
                user,
                realm_pda,
                user_account_pda,
                spaceship_pda,
            ),
        ) == Ok::<ParamsModel, DecodeError>(params),
{
    let e0 = entry_text(Field::ProgramId, program_id);
    let e1 = entry_text(Field::LowerBound, lower_bound);
    let e2 = entry_text(Field::UpperBound, upper_bound);
    let e3 = entry_text(Field::User, user);
    let e4 = entry_text(Field::RealmPda, realm_pda);
    let e5 = entry_text(Field::UserAccountPda, user_account_pda);
    let e6 = entry_text(Field::SpaceshipPda, spaceship_pda);
    let pieces = seq![e0, e1, e2, e3, e4, e5, e6];
    lemma_number_fits_in_line(lower_bound);
    lemma_number_fits_in_line(upper_bound);
    lemma_entry_text(Field::ProgramId, program_id);
    lemma_entry_text(Field::LowerBound, lower_bound);
    lemma_entry_text(Field::UpperBound, upper_bound);
    lemma_entry_text(Field::User, user);
    lemma_entry_text(Field::RealmPda, realm_pda);
    lemma_entry_text(Field::UserAccountPda, user_account_pda);
    lemma_entry_text(Field::SpaceshipPda, spaceship_pda);
    assert(comma_free(pieces) && forall|i: int|
        0 <= i < pieces.len() ==> valid_utf8(#[trigger] pieces[i])) by {
        assert forall|i: int| 0 <= i < pieces.len() implies fits_in_line(#[trigger] pieces[i]) by {
            assert(i == 0 || i == 1 || i == 2 || i == 3 || i == 4 || i == 5 || i == 6);
        }
    }
    lemma_segments_of_joined_pieces(pieces);
    lemma_utf8_of_pieces(pieces);
    let s0 = Seq::<Seq<u8>>::empty();
    let s1 = s0.push(e0);
    let s2 = s1.push(e1);
    let s3 = s2.push(e2);
    let s4 = s3.push(e3);
    let s5 = s4.push(e4);
    let s6 = s5.push(e5);
    let s7 = s6.push(e6);
    assert(s7 =~= pieces);
    assert(first_malformed(s0) is None);
    lemma_collected_push(s0, e0);
    lemma_collected_push(s1, e1);
    lemma_collected_push(s2, e2);
    lemma_collected_push(s3, e3);
    lemma_collected_push(s4, e4);
    lemma_collected_push(s5, e5);
    lemma_collected_push(s6, e6);
    assert(first_malformed(s7) is None);
    assert(collected(s7) == params);
}

/// Round trip with the numbers written in decimal: a line that sets the two
/// bounds by their decimal texts, and each address by a text that denotes it
/// and fits in a line, decodes to exactly those values, provided they pass
/// the validation of required fields.
pub proof fn law_round_trip_decimal(
    params: ParamsModel,
    program_id: Seq<u8>,
    user: Seq<u8>,
    realm_pda: Seq<u8>,
    user_account_pda: Seq<u8>,
    spaceship_pda: Seq<u8>,
)
    requires
        params.first_missing() is None,
        address_of_text(program_id) == Some(params.program_id),
        address_of_text(user) == Some(params.user),
        address_of_text(realm_pda) == Some(params.realm_pda),
        address_of_text(user_account_pda) == Some(params.user_account_pda),
        address_of_text(spaceship_pda) == Some(params.spaceship_pda),
        fits_in_line(program_id),
        fits_in_line(user),
        fits_in_line(realm_pda),
        fits_in_line(user_account_pda),
        fits_in_line(spaceship_pda),
    ensures
        decode_result(
            rendered(
                program_id,
                decimal_text(params.lower_bound as nat),
                decimal_text(params.upper_bound as nat),
                user,
                realm_pda,
                user_account_pda,
                spaceship_pda,
            ),
        ) == Ok::<ParamsModel, DecodeError>(params),
{
    lemma_decimal_text_reads_back(params.lower_bound);
    lemma_decimal_text_reads_back(params.upper_bound);
    law_round_trip(
        params,
        program_id,
        decimal_text(params.lower_bound as nat),
        decimal_text(params.upper_bound as nat),
        user,
        realm_pda,
        user_account_pda,
        spaceship_pda,
    );
}

/// A text that denotes a number fits in a line.
pub proof fn lemma_number_fits_in_line(text: Seq<u8>)
    requires
        u32_of_text(text) is Some,
    ensures
        fits_in_line(text),
{
    lemma_number_text_is_plain(text);
    lemma_ascii_is_utf8(text);
    if text.contains(COMMA) {
        let k = choose|k: int| 0 <= k < text.len() && text[k] == COMMA;
        assert(text[k] == crate::number::PLUS || crate::number::is_digit(text[k]));
    }
}

/// Order independence: two lines with the same segments in different order,
/// in which every field has the same last value, decode alike. Where both
/// hold malformed values, each reports its own earliest one, so the two
/// results are the same whenever those agree, and are both the error of a
/// malformed value otherwise.
pub proof fn law_order_independence(a: Seq<u8>, b: Seq<u8>)
    requires
        segments(a).to_multiset() == segments(b).to_multiset(),
        forall|field: Field| #[trigger]
            last_value(segments(a), field) == last_value(segments(b), field),
    ensures
        first_malformed(segments(a)) == first_malformed(segments(b)) ==> decode_result(a)
            == decode_result(b),
        decode_result(a) == decode_result(b) || (is_malformed_field(decode_result(a))
            && is_malformed_field(decode_result(b))),
{
    let sa = segments(a);
    let sb = segments(b);
    lemma_joined_segments(a);
    lemma_joined_segments(b);
    lemma_utf8_of_pieces(sa);
    lemma_utf8_of_pieces(sb);
    lemma_first_malformed_none(sa);
    lemma_first_malformed_none(sb);
    sa.to_multiset_ensures();
    sb.to_multiset_ensures();
    assert forall|i: int| 0 <= i < sa.len() implies sb.contains(#[trigger] sa[i]) by {
        assert(sa.contains(sa[i]));
        assert(sa.to_multiset().count(sa[i]) > 0);
        assert(sb.to_multiset().count(sa[i]) > 0);
    }
    assert forall|i: int| 0 <= i < sb.len() implies sa.contains(#[trigger] sb[i]) by {
        assert(sb.contains(sb[i]));
        assert(sb.to_multiset().count(sb[i]) > 0);
        assert(sa.to_multiset().count(sb[i]) > 0);
    }
    assert(valid_utf8(a) <==> valid_utf8(b)) by {
        if valid_utf8(a) {
            assert forall|i: int| 0 <= i < sb.len() implies valid_utf8(#[trigger] sb[i]) by {
                assert(sa.contains(sb[i]));
            }
        }
        if valid_utf8(b) {
            assert forall|i: int| 0 <= i < sa.len() implies valid_utf8(#[trigger] sa[i]) by {
                assert(sb.contains(sa[i]));
            }
        }
    }
    assert(first_malformed(sa) is None <==> first_malformed(sb) is None) by {
        if first_malformed(sa) is None {
            assert forall|i: int| 0 <= i < sb.len() implies malformed_in(
                #[trigger] sb[i],
            ) is None by {
                assert(sa.contains(sb[i]));
            }
        }
        if first_malformed(sb) is None {
            assert forall|i: int| 0 <= i < sa.len() implies malformed_in(
                #[trigger] sa[i],
            ) is None by {
                assert(sb.contains(sa[i]));
            }
        }
    }
    assert(collected(sa) == collected(sb)) by {
        assert(last_value(sa, Field::ProgramId) == last_value(sb, Field::ProgramId));
        assert(last_value(sa, Field::LowerBound) == last_value(sb, Field::LowerBound));
        assert(last_value(sa, Field::UpperBound) == last_value(sb, Field::UpperBound));
        assert(last_value(sa, Field::User) == last_value(sb, Field::User));
        assert(last_value(sa, Field::RealmPda) == last_value(sb, Field::RealmPda));
        assert(last_value(sa, Field::UserAccountPda) == last_value(sb, Field::UserAccountPda));
        assert(last_value(sa, Field::SpaceshipPda) == last_value(sb, Field::SpaceshipPda));
    }
}

/// Last write wins: where a segment sets a field and no later segment sets
/// it again, the decoded field holds what that segment's value denotes,
/// however many earlier segments set the field to something else.
pub proof fn law_last_write_wins(line: Seq<u8>, at: int, field: Field, value: Seq<u8>)
    requires
        0 <= at < segments(line).len(),
        entry_of(segments(line)[at]) == Some((field, value)),
        forall|j: int|
            at < j < segments(line).len() ==> !(entry_of(#[trigger] segments(line)[j]) is Some
                && entry_of(segments(line)[j]).unwrap().0 == field),
    ensures
        last_value(segments(line), field) == Some(value),
        match decode_result(line) {
            Ok(params) => if field.holds_number() {
                u32_of_text(value) == Some(params.number(field))
            } else {
                address_of_text(value) == Some(params.address(field))
            },
            Err(_) => true,
        },
{
    let list = segments(line);
    lemma_last_value_at(list, at, field, value);
    lemma_first_malformed_none(list);
    if decode_result(line) is Ok {
        assert(malformed_in(list[at]) is None);
    }
}

/// A segment that sets no field changes nothing, wherever it is put.
proof fn lemma_idle_segment_is_ignored(line: Seq<u8>, at: int, extra: Seq<u8>)
    requires
        0 <= at <= segments(line).len(),
        fits_in_line(extra),
        entry_of(extra) is None,
    ensures
        decode_result(joined(segments(line).insert(at, extra))) == decode_result(line),
{
    let list = segments(line);
    let before = list.subrange(0, at);
    let after = list.subrange(at, list.len() as int);
    let longer = list.insert(at, extra);
    lemma_segments_hold_no_comma(line);
    lemma_joined_segments(line);
    assert(before + after =~= list);
    assert(longer =~= before.push(extra) + after);
    assert forall|i: int| 0 <= i < longer.len() implies !(#[trigger] longer[i]).contains(COMMA) by {
        if i < at {
            assert(longer[i] == list[i]);
        } else if i > at {
            assert(longer[i] == list[i - 1]);
        }
    }
    lemma_segments_of_joined_pieces(longer);
    lemma_utf8_of_pieces(list);
    lemma_utf8_of_pieces(longer);
    assert(valid_utf8(joined(longer)) <==> valid_utf8(line)) by {
        if valid_utf8(line) {
            assert forall|i: int| 0 <= i < longer.len() implies valid_utf8(
                #[trigger] longer[i],
            ) by {
                if i < at {
                    assert(longer[i] == list[i]);
                } else if i > at {
                    assert(longer[i] == list[i - 1]);
                }
            }
        }
        if valid_utf8(joined(longer)) {
            assert forall|i: int| 0 <= i < list.len() implies valid_utf8(#[trigger] list[i]) by {
                if i < at {
                    assert(longer[i] == list[i]);
                } else {
                    assert(longer[i + 1] == list[i]);
                }
            }
        }
    }
    let middle = seq![extra];
    assert(before.push(extra) =~= before + middle);
    assert(first_malformed(middle) is None) by {
        lemma_first_malformed_none(middle);
    }
    lemma_first_malformed_concat(before, middle);
    lemma_first_malformed_concat(before + middle, after);
    lemma_first_malformed_concat(before, after);
    assert forall|field: Field| last_value(longer, field) == #[trigger] last_value(
        list,
        field,
    ) by {
        assert(middle.drop_last() =~= Seq::<Seq<u8>>::empty());
        assert(last_value(Seq::<Seq<u8>>::empty(), field) is None);
        assert(middle.last() == extra);
        assert(last_value(middle, field) is None);
        lemma_last_value_concat(before, middle, field);
        lemma_last_value_concat(before + middle, after, field);
        lemma_last_value_concat(before, after, field);
    }
    assert(collected(longer) == collected(list));
    assert(segments_result(longer) == segments_result(list));
}

/// Unknown keys are tolerated: an extra segment whose key names no field,
/// put between any two segments of a line, before the first or after the
/// last, changes neither the decoded parameters nor the error.
pub proof fn law_unknown_key_is_ignored(line: Seq<u8>, at: int, extra: Seq<u8>)
    requires
        0 <= at <= segments(line).len(),
        fits_in_line(extra),
        pair_of(extra) is Some,
        field_of_key(pair_of(extra).unwrap().0) is None,
    ensures
        decode_result(joined(segments(line).insert(at, extra))) == decode_result(line),
{
    lemma_idle_segment_is_ignored(line, at, extra);
}

/// Segments without `=` are tolerated: an extra segment that holds no `=`,
/// such as the empty segment that a stray comma leaves or a bare word, put
/// anywhere among the segments of a line, changes neither the decoded
/// parameters nor the error.
pub proof fn law_segment_without_equals_is_ignored(line: Seq<u8>, at: int, extra: Seq<u8>)
    requires
        0 <= at <= segments(line).len(),
        fits_in_line(extra),
        !extra.contains(EQUALS),
    ensures
        decode_result(joined(segments(line).insert(at, extra))) == decode_result(line),
{
    lemma_position(extra, EQUALS);
    lemma_idle_segment_is_ignored(line, at, extra);
}

} // verus!
