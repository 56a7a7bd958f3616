//! The decoded parameters of a container job, and what a parameter line
//! means.

use crate::address::{address_of_text, read_address, unset_bytes, Address};
use crate::error::DecodeError;
use crate::field::{field_of_key, Field};
use crate::number::{parse_u32, u32_of_text};
use crate::text::{find_byte, is_utf8, position, segments, COMMA, EQUALS};
use vstd::prelude::*;

verus! {

/// The parameters of a container job.
#[derive(Clone, Copy, Debug, PartialEq, Eq)]
pub struct ContainerParams {
    pub program_id: Address,
    pub lower_bound: u32,
    pub upper_bound: u32,
    pub user: Address,
    pub realm_pda: Address,
    pub user_account_pda: Address,
    pub spaceship_pda: Address,
}

/// The parameters as plain values: each address as its 32 bytes.
pub struct ParamsModel {
    pub program_id: Seq<u8>,
    pub lower_bound: u32,
    pub upper_bound: u32,
    pub user: Seq<u8>,
    pub realm_pda: Seq<u8>,
    pub user_account_pda: Seq<u8>,
    pub spaceship_pda: Seq<u8>,
}

impl View for ContainerParams {
    type V = ParamsModel;

    open spec fn view(&self) -> ParamsModel {
        ParamsModel {
            program_id: self.program_id@,
            lower_bound: self.lower_bound,
            upper_bound: self.upper_bound,
            user: self.user@,
            realm_pda: self.realm_pda@,
            user_account_pda: self.user_account_pda@,
            spaceship_pda: self.spaceship_pda@,
        }
    }
}

impl ParamsModel {
    /// The address held by an address field.
    pub open spec fn address(self, field: Field) -> Seq<u8>
        recommends
            !field.holds_number(),
    {
        match field {
            Field::ProgramId => self.program_id,
            Field::User => self.user,
            Field::RealmPda => self.realm_pda,
            Field::UserAccountPda => self.user_account_pda,
            _ => self.spaceship_pda,
        }
    }

    /// The number held by a number field.
    pub open spec fn number(self, field: Field) -> u32
        recommends
            field.holds_number(),
    {
        match field {
            Field::LowerBound => self.lower_bound,
            _ => self.upper_bound,
        }
    }

    /// The parameters with an address field set anew.
    pub open spec fn with_address(self, field: Field, address: Seq<u8>) -> ParamsModel
        recommends
            !field.holds_number(),
    {
        match field {
            Field::ProgramId => ParamsModel { program_id: address, ..self },
            Field::User => ParamsModel { user: address, ..self },
            Field::RealmPda => ParamsModel { realm_pda: address, ..self },
            Field::UserAccountPda => ParamsModel { user_account_pda: address, ..self },
            Field::SpaceshipPda => ParamsModel { spaceship_pda: address, ..self },
            _ => self,
        }
    }

    /// The parameters with a number field set anew.
    pub open spec fn with_number(self, field: Field, number: u32) -> ParamsModel
        recommends
            field.holds_number(),
    {
        match field {
            Field::LowerBound => ParamsModel { lower_bound: number, ..self },
            Field::UpperBound => ParamsModel { upper_bound: number, ..self },
            _ => self,
        }
    }

    /// The parameters after a segment: the field that the segment sets holds
    /// what its value denotes, the others are as they were. A value that
    /// denotes nothing leaves the field unset.
    pub open spec fn with_segment(self, segment: Seq<u8>) -> ParamsModel {
        match entry_of(segment) {
            None => self,
            Some((field, value)) => if field.holds_number() {
                self.with_number(
                    field,
                    match u32_of_text(value) {
                        Some(number) => number,
                        None => 0,
                    },
                )
            } else {
                self.with_address(
                    field,
                    match address_of_text(value) {
                        Some(address) => address,
                        None => unset_bytes(),
                    },
                )
            },
        }
    }

    /// The first required field, in the order in which they are looked at,
    /// that is not set: an address field that holds the unset address, or an
    /// upper bound of zero. The lower bound is not required.
    pub open spec fn first_missing(self) -> Option<Field> {
        if self.program_id == unset_bytes() {
            Some(Field::ProgramId)
        } else if self.upper_bound == 0 {
            Some(Field::UpperBound)
        } else if self.user == unset_bytes() {
            Some(Field::User)
        } else if self.realm_pda == unset_bytes() {
            Some(Field::RealmPda)
        } else if self.user_account_pda == unset_bytes() {
            Some(Field::UserAccountPda)
        } else if self.spaceship_pda == unset_bytes() {
            Some(Field::SpaceshipPda)
        } else {
            None
        }
    }

    /// The parameters themselves where every required field is set, else the
    /// error that names the first one that is not.
    pub open spec fn validated(self) -> Result<ParamsModel, DecodeError> {
        match self.first_missing() {
            Some(field) => Err(DecodeError::MissingOrDefaultField(field)),
            None => Ok(self),
        }
    }
}

/// The key and the value of a segment: what stands before its first `=` and
/// what stands after it. A segment without `=` has neither.
pub open spec fn pair_of(segment: Seq<u8>) -> Option<(Seq<u8>, Seq<u8>)> {
    let at = position(segment, EQUALS);
    if 0 <= at < segment.len() {
        Some((segment.take(at), segment.skip(at + 1)))
    } else {
        None
    }
}

/// The field that a segment sets and the text of the value it gives. A
/// segment without `=`, or with a key that names no field, sets nothing.
pub open spec fn entry_of(segment: Seq<u8>) -> Option<(Field, Seq<u8>)> {
    match pair_of(segment) {
        Some((key, value)) => match field_of_key(key) {
            Some(field) => Some((field, value)),
            None => None,
        },
        None => None,
    }
}

/// Whether a text denotes no value of the field's type.
pub open spec fn is_malformed(field: Field, value: Seq<u8>) -> bool {
    if field.holds_number() {
        u32_of_text(value) is None
    } else {
        address_of_text(value) is None
    }
}

/// The field that a segment sets to a malformed value, if it does.
pub open spec fn malformed_in(segment: Seq<u8>) -> Option<Field> {
    match entry_of(segment) {
        Some((field, value)) => if is_malformed(field, value) {
            Some(field)
        } else {
            None
        },
        None => None,
    }
}

/// The field of the earliest segment that gives a malformed value.
pub open spec fn first_malformed(segments: Seq<Seq<u8>>) -> Option<Field>
    decreases segments.len(),
{
    if segments.len() == 0 {
        None
    } else {
        match first_malformed(segments.drop_last()) {
            Some(field) => Some(field),
            None => malformed_in(segments.last()),
        }
    }
}

/// The text that the last segment setting `field` gives for it.
pub open spec fn last_value(segments: Seq<Seq<u8>>, field: Field) -> Option<Seq<u8>>
    decreases segments.len(),
{
    if segments.len() == 0 {
        None
    } else {
        match entry_of(segments.last()) {
            Some((f, value)) if f == field => Some(value),
            _ => last_value(segments.drop_last(), field),
        }
    }
}

/// The address that the segments leave in an address field: the one that
/// its last value denotes, or the unset address where no segment sets it.
pub open spec fn address_set(segments: Seq<Seq<u8>>, field: Field) -> Seq<u8> {
    match last_value(segments, field) {
        Some(value) => match address_of_text(value) {
            Some(address) => address,
            None => unset_bytes(),
        },
        None => unset_bytes(),
    }
}

/// The number that the segments leave in a number field: the one that its
/// last value denotes, or zero where no segment sets it.
pub open spec fn number_set(segments: Seq<Seq<u8>>, field: Field) -> u32 {
    match last_value(segments, field) {
        Some(value) => match u32_of_text(value) {
            Some(number) => number,
            None => 0,
        },
        None => 0,
    }
}

/// The parameters that the segments leave, before they are validated.
pub open spec fn collected(segments: Seq<Seq<u8>>) -> ParamsModel {
    ParamsModel {
        program_id: address_set(segments, Field::ProgramId),
        lower_bound: number_set(segments, Field::LowerBound),
        upper_bound: number_set(segments, Field::UpperBound),
        user: address_set(segments, Field::User),
        realm_pda: address_set(segments, Field::RealmPda),
        user_account_pda: address_set(segments, Field::UserAccountPda),
        spaceship_pda: address_set(segments, Field::SpaceshipPda),
    }
}

/// What a list of segments decodes to: the error of the earliest malformed
/// value if there is one, else the collected parameters, validated.
pub open spec fn segments_result(segments: Seq<Seq<u8>>) -> Result<ParamsModel, DecodeError> {
    match first_malformed(segments) {
        Some(field) => Err(DecodeError::MalformedField(field)),
        None => collected(segments).validated(),
    }
}

/// What a parameter line decodes to.
pub open spec fn decode_result(line: Seq<u8>) -> Result<ParamsModel, DecodeError> {
    if !vstd::utf8::valid_utf8(line) {
        Err(DecodeError::MalformedInput)
    } else {
        segments_result(crate::text::segments(line))
    }
}

/// One more segment at the end of a list: the earliest malformed value is
/// that of the list, or else that of the segment, and the collected
/// parameters are those of the list after the segment.
pub proof fn lemma_collected_push(done: Seq<Seq<u8>>, segment: Seq<u8>)
    ensures
        first_malformed(done.push(segment)) == match first_malformed(done) {
            Some(field) => Some(field),
            None => malformed_in(segment),
        },
        collected(done.push(segment)) == collected(done).with_segment(segment),
{
    let all = done.push(segment);
    assert(all.drop_last() =~= done);
    assert(all.last() == segment);
}

/// Cuts a segment at its first `=` into key and value; `None` where the
/// segment holds no `=`.
pub fn split_pair<'a>(segment: &'a [u8]) -> (pair: Option<(&'a [u8], &'a [u8])>)
    ensures
        match pair {
            Some((key, value)) => pair_of(segment@) == Some((key@, value@)),
            None => pair_of(segment@) is None,
        },
{
    let at = find_byte(segment, 0, EQUALS);
    assert(segment@.skip(0) =~= segment@);
    if at < segment.len() {
        let key = &segment[0..at];
        let value = &segment[at + 1..segment.len()];
        assert(key@ =~= segment@.take(at as int));
        assert(value@ =~= segment@.skip(at + 1));
        Some((key, value))
    } else {
        None
    }
}

/// The field that a segment sets and the text of the value it gives; `None`
/// where the segment holds no `=` or its key names no field.
pub fn read_entry<'a>(segment: &'a [u8]) -> (entry: Option<(Field, &'a [u8])>)
    ensures
        match entry {
            Some((field, value)) => entry_of(segment@) == Some((field, value@)),
            None => entry_of(segment@) is None,
        },
{
    match split_pair(segment) {
        Some((key, value)) => match Field::from_key(key) {
            Some(field) => Some((field, value)),
            None => None,
        },
        None => None,
    }
}

impl ContainerParams {
    /// Parameters in which nothing is set yet: every address is the unset
    /// address and both bounds are zero.
    pub fn unset() -> (params: ContainerParams)
        ensures
            params@ == collected(Seq::empty()),
    {
        ContainerParams {
            program_id: Address::unset(),
            lower_bound: 0,
            upper_bound: 0,
            user: Address::unset(),
            realm_pda: Address::unset(),
            user_account_pda: Address::unset(),
            spaceship_pda: Address::unset(),
        }
    }

    /// The parameters with an address field set anew. A number field is
    /// left as it is.
    pub open spec fn with_address_spec(self, field: Field, address: Address) -> ContainerParams {
        match field {
            Field::ProgramId => ContainerParams { program_id: address, ..self },
            Field::User => ContainerParams { user: address, ..self },
            Field::RealmPda => ContainerParams { realm_pda: address, ..self },
            Field::UserAccountPda => ContainerParams { user_account_pda: address, ..self },
            Field::SpaceshipPda => ContainerParams { spaceship_pda: address, ..self },
            _ => self,
        }
    }

    /// The parameters with a number field set anew. An address field is
    /// left as it is.
    pub open spec fn with_number_spec(self, field: Field, number: u32) -> ContainerParams {
        match field {
            Field::LowerBound => ContainerParams { lower_bound: number, ..self },
            Field::UpperBound => ContainerParams { upper_bound: number, ..self },
            _ => self,
        }
    }

    /// The parameters with an address field set anew. A number field is
    /// left as it is.
    #[verifier::when_used_as_spec(with_address_spec)]
    pub fn with_address(self, field: Field, address: Address) -> (params: ContainerParams)
        ensures
            params == self.with_address_spec(field, address),
            params@ == self@.with_address(field, address@),
    {
        let mut params = self;
        match field {
            Field::ProgramId => params.program_id = address,
            Field::User => params.user = address,
            Field::RealmPda => params.realm_pda = address,
            Field::UserAccountPda => params.user_account_pda = address,
            Field::SpaceshipPda => params.spaceship_pda = address,
            _ => {},
        }
        params
    }

    /// The parameters with a number field set anew. An address field is
    /// left as it is.
    #[verifier::when_used_as_spec(with_number_spec)]
    pub fn with_number(self, field: Field, number: u32) -> (params: ContainerParams)
        ensures
            params == self.with_number_spec(field, number),
            params@ == self@.with_number(field, number),
    {
        let mut params = self;
        match field {
            Field::LowerBound => params.lower_bound = number,
            Field::UpperBound => params.upper_bound = number,
            _ => {},
        }
        params
    }

    /// Makes sure that every required field is set, in a fixed order, and names
    /// the first that is not: the program identifier, the upper bound (which
    /// must not be zero), the user, the realm, the user account and the
    /// spaceship. The lower bound may be zero.
    pub fn validate(self) -> (result: Result<ContainerParams, DecodeError>)
        ensures
            match result {
                Ok(params) => params == self && self@.validated() == Ok::<ParamsModel, DecodeError>(
                    self@,
                ),
                Err(error) => self@.validated() == Err::<ParamsModel, DecodeError>(error),
            },
    {
        if self.program_id.is_unset() {
            Err(DecodeError::MissingOrDefaultField(Field::ProgramId))
        } else if self.upper_bound == 0 {
            Err(DecodeError::MissingOrDefaultField(Field::UpperBound))
        } else if self.user.is_unset() {
            Err(DecodeError::MissingOrDefaultField(Field::User))
        } else if self.realm_pda.is_unset() {
            Err(DecodeError::MissingOrDefaultField(Field::RealmPda))
        } else if self.user_account_pda.is_unset() {
            Err(DecodeError::MissingOrDefaultField(Field::UserAccountPda))
        } else if self.spaceship_pda.is_unset() {
            Err(DecodeError::MissingOrDefaultField(Field::SpaceshipPda))
        } else {
            Ok(self)
        }
    }

    /// Sets an address field to the address that was read for it; where none
    /// could be read, the value was malformed.
    pub fn set_address(self, field: Field, read: Option<Address>) -> (result: Result<
        ContainerParams,
        DecodeError,
    >)
        ensures
            result == match read {
                Some(address) => Ok::<ContainerParams, DecodeError>(
                    self.with_address(field, address),
                ),
                None => Err::<ContainerParams, DecodeError>(DecodeError::MalformedField(field)),
            },
    {
        match read {
            Some(address) => Ok(self.with_address(field, address)),
            None => Err(DecodeError::MalformedField(field)),
        }
    }

    /// Sets a number field to the number that was read for it; where none
    /// could be read, the value was malformed.
    pub fn set_number(self, field: Field, read: Option<u32>) -> (result: Result<
        ContainerParams,
        DecodeError,
    >)
        ensures
            result == match read {
                Some(number) => Ok::<ContainerParams, DecodeError>(
                    self.with_number(field, number),
                ),
                None => Err::<ContainerParams, DecodeError>(DecodeError::MalformedField(field)),
            },
    {
        match read {
            Some(number) => Ok(self.with_number(field, number)),
            None => Err(DecodeError::MalformedField(field)),
        }
    }

    /// The parameters after one more segment, or the error where the segment
    /// gives a field a malformed value. A segment without `=`, or with a key
    /// that names no field, leaves the parameters as they are.
    pub fn read_segment(self, segment: &[u8]) -> (result: Result<ContainerParams, DecodeError>)
        ensures
            match result {
                Ok(params) => malformed_in(segment@) is None && params@ == self@.with_segment(
                    segment@,
                ),
                Err(error) => malformed_in(segment@) is Some && error
                    == DecodeError::MalformedField(malformed_in(segment@).unwrap()),
            },
    {
        match read_entry(segment) {
            None => Ok(self),
            Some((field, value)) => {
                if field.is_number() {
                    self.set_number(field, parse_u32(value))
                } else {
                    self.set_address(field, read_address(value))
                }
            },
        }
    }

    /// Decodes a parameter line.
    ///
    /// The line is a comma-separated list of `KEY=VALUE` segments. A segment
    /// without `=` and a segment whose key names no field are passed over.
    /// Where a key occurs more than once its last value counts. The line is
    /// refused where it is not UTF-8 text, where a segment gives a field a
    /// malformed value (the earliest such segment is reported), and where a
    /// required field is left unset.
    pub fn decode(container_params: &Vec<u8>) -> (result: Result<ContainerParams, DecodeError>)
        ensures
            match result {
                Ok(params) => decode_result(container_params@) == Ok::<ParamsModel, DecodeError>(
                    params@,
                ),
                Err(error) => decode_result(container_params@) == Err::<ParamsModel, DecodeError>(
                    error,
                ),
            },
    {
        let line = container_params.as_slice();
        if !is_utf8(line) {
            return Err(DecodeError::MalformedInput);
        }
        let mut params = ContainerParams::unset();
        let mut start: usize = 0;
        let ghost mut done: Seq<Seq<u8>> = Seq::empty();
        assert(line@.skip(0) =~= line@);
        loop
            invariant
                line@ == container_params@,
                vstd::utf8::valid_utf8(line@),
                start <= line@.len(),
                segments(line@) == done + segments(line@.skip(start as int)),
                first_malformed(done) is None,
                params@ == collected(done),
            decreases line@.len() - start,
        {
            let end = find_byte(line, start, COMMA);
            let segment = &line[start..end];
            let ghost rest = line@.skip(start as int);
            proof {
                assert(segment@ =~= rest.take(end - start));
                lemma_collected_push(done, segment@);
            }
            match params.read_segment(segment) {
                Ok(next) => {
                    params = next;
                },
                Err(error) => {
                    proof {
                        let head = done.push(segment@);
                        assert(segments(rest)[0] == segment@);
                        assert(segments(line@).take(head.len() as int) =~= head);
                        lemma_first_malformed_prefix(head, segments(line@));
                    }
                    return Err(error);
                },
            }
            if end == line.len() {
                proof {
                    assert(segments(rest) == seq![segment@]);
                    assert(done + seq![segment@] =~= done.push(segment@));
                }
                return params.validate();
            }
            proof {
                assert(rest.skip(end - start + 1) =~= line@.skip(end + 1));
                assert(done + (seq![segment@] + segments(line@.skip(end + 1))) =~= done.push(
                    segment@,
                ) + segments(line@.skip(end + 1)));
                done = done.push(segment@);
            }
            start = end + 1;
        }
    }
}

/// A malformed value in the first segments of a list is the first malformed
/// value of the whole list.
pub proof fn lemma_first_malformed_prefix(head: Seq<Seq<u8>>, all: Seq<Seq<u8>>)
    requires
        head.len() <= all.len(),
        all.take(head.len() as int) == head,
        first_malformed(head) is Some,
    ensures
        first_malformed(all) == first_malformed(head),
    decreases all.len(),
{
    if head.len() < all.len() {
        assert(all.drop_last().take(head.len() as int) =~= head);
        lemma_first_malformed_prefix(head, all.drop_last());
    } else {
        assert(all =~= head);
    }
}

/// A list has no malformed value exactly when none of its segments gives
/// one.
pub proof fn lemma_first_malformed_none(list: Seq<Seq<u8>>)
    ensures
        first_malformed(list) is None <==> forall|i: int|
            0 <= i < list.len() ==> malformed_in(#[trigger] list[i]) is None,
    decreases list.len(),
{
    if list.len() > 0 {
        let front = list.drop_last();
        lemma_first_malformed_none(front);
        if first_malformed(list) is None {
            assert forall|i: int| 0 <= i < list.len() implies malformed_in(
                #[trigger] list[i],
            ) is None by {
                if i < front.len() {
                    assert(front[i] == list[i]);
                }
            }
        }
        if forall|i: int| 0 <= i < list.len() ==> malformed_in(#[trigger] list[i]) is None {
            assert forall|i: int| 0 <= i < front.len() implies malformed_in(
                #[trigger] front[i],
            ) is None by {
                assert(front[i] == list[i]);
            }
            assert(malformed_in(list.last()) is None);
        }
    }
}

/// The first malformed value of two lists in a row is that of the first
/// list, or else that of the second.
pub proof fn lemma_first_malformed_concat(a: Seq<Seq<u8>>, b: Seq<Seq<u8>>)
    ensures
        first_malformed(a + b) == match first_malformed(a) {
            Some(field) => Some(field),
            None => first_malformed(b),
        },
    decreases b.len(),
{
    if b.len() == 0 {
        assert(a + b =~= a);
    } else {
        assert((a + b).drop_last() =~= a + b.drop_last());
        lemma_first_malformed_concat(a, b.drop_last());
        assert((a + b).last() == b.last());
    }
}

/// The last value of a field in two lists in a row is that in the second
/// list, or else that in the first.
pub proof fn lemma_last_value_concat(a: Seq<Seq<u8>>, b: Seq<Seq<u8>>, field: Field)
    ensures
        last_value(a + b, field) == match last_value(b, field) {
            Some(value) => Some(value),
            None => last_value(a, field),
        },
    decreases b.len(),
{
    if b.len() == 0 {
        assert(a + b =~= a);
    } else {
        assert((a + b).drop_last() =~= a + b.drop_last());
        lemma_last_value_concat(a, b.drop_last(), field);
        assert((a + b).last() == b.last());
    }
}

/// A segment that sets a field, with no later segment setting it, gives the
/// field its last value.
pub proof fn lemma_last_value_at(list: Seq<Seq<u8>>, at: int, field: Field, value: Seq<u8>)
    requires
        0 <= at < list.len(),
        entry_of(list[at]) == Some((field, value)),
        forall|j: int|
            at < j < list.len() ==> !(entry_of(#[trigger] list[j]) is Some && entry_of(
                list[j],
            ).unwrap().0 == field),
    ensures
        last_value(list, field) == Some(value),
    decreases list.len(),
{
    if at < list.len() - 1 {
        let front = list.drop_last();
        assert(front[at] == list[at]);
        assert forall|j: int| at < j < front.len() implies !(entry_of(#[trigger] front[j]) is Some
            && entry_of(front[j]).unwrap().0 == field) by {
            assert(front[j] == list[j]);
        }
        lemma_last_value_at(front, at, field, value);
        assert(!(entry_of(list[list.len() - 1]) is Some && entry_of(
            list[list.len() - 1],
        ).unwrap().0 == field));
    }
}

} // verus!
