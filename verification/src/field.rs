//! The seven fields of a parameter line and the keys that name them.

use crate::text::{ascii_bytes, same_bytes};
use vstd::prelude::*;

verus! {

/// One of the fields that a parameter line can set.
#[derive(Clone, Copy, Debug, PartialEq, Eq, Hash)]
pub enum Field {
    /// The program identifier, under the key `PID`.
    ProgramId,
    /// The lower bound, under the key `LOWER_BOUND`.
    LowerBound,
    /// The upper bound, under the key `UPPER_BOUND`.
    UpperBound,
    /// The user's address, under the key `USER`.
    User,
    /// The realm's address, under the key `REALM_PDA`.
    RealmPda,
    /// The user account's address, under the key `USER_ACCOUNT_PDA`.
    UserAccountPda,
    /// The spaceship's address, under the key `SPACESHIP_PDA`.
    SpaceshipPda,
}

impl Field {
    /// The key of the field, as text.
    pub open spec fn key_text(self) -> Seq<char> {
        match self {
            Field::ProgramId => "PID"@,
            Field::LowerBound => "LOWER_BOUND"@,
            Field::UpperBound => "UPPER_BOUND"@,
            Field::User => "USER"@,
            Field::RealmPda => "REALM_PDA"@,
            Field::UserAccountPda => "USER_ACCOUNT_PDA"@,
            Field::SpaceshipPda => "SPACESHIP_PDA"@,
        }
    }

    /// The key of the field, as the bytes that a line holds.
    pub open spec fn key_bytes(self) -> Seq<u8> {
        ascii_bytes(self.key_text())
    }

    /// Whether the field holds a number; the others hold an address.
    pub open spec fn holds_number(self) -> bool {
        self == Field::LowerBound || self == Field::UpperBound
    }

    /// The key of the field.
    pub fn key(&self) -> (key: &'static str)
        ensures
            key@ == self.key_text(),
    {
        match self {
            Field::ProgramId => "PID",
            Field::LowerBound => "LOWER_BOUND",
            Field::UpperBound => "UPPER_BOUND",
            Field::User => "USER",
            Field::RealmPda => "REALM_PDA",
            Field::UserAccountPda => "USER_ACCOUNT_PDA",
            Field::SpaceshipPda => "SPACESHIP_PDA",
        }
    }

    /// Whether the field holds a number; the others hold an address.
    pub fn is_number(&self) -> (number: bool)
        ensures
            number == self.holds_number(),
    {
        match self {
            Field::LowerBound => true,
            Field::UpperBound => true,
            _ => false,
        }
    }

    /// Whether `key` is exactly the key of this field.
    pub fn has_key(&self, key: &[u8]) -> (same: bool)
        ensures
            same == (key@ == self.key_bytes()),
    {
        let name = self.key();
        proof {
            lemma_keys_are_ascii(*self);
        }
        same_bytes(key, name.as_bytes())
    }

    /// The field that a key names. Keys are matched exactly and with regard
    /// to case; any other key names no field.
    pub fn from_key(key: &[u8]) -> (field: Option<Field>)
        ensures
            field == field_of_key(key@),
    {
        if Field::ProgramId.has_key(key) {
            Some(Field::ProgramId)
        } else if Field::LowerBound.has_key(key) {
            Some(Field::LowerBound)
        } else if Field::UpperBound.has_key(key) {
            Some(Field::UpperBound)
        } else if Field::User.has_key(key) {
            Some(Field::User)
        } else if Field::RealmPda.has_key(key) {
            Some(Field::RealmPda)
        } else if Field::UserAccountPda.has_key(key) {
            Some(Field::UserAccountPda)
        } else if Field::SpaceshipPda.has_key(key) {
            Some(Field::SpaceshipPda)
        } else {
            None
        }
    }
}

/// The field that a key names, if it names one.
pub open spec fn field_of_key(key: Seq<u8>) -> Option<Field> {
    if key == Field::ProgramId.key_bytes() {
        Some(Field::ProgramId)
    } else if key == Field::LowerBound.key_bytes() {
        Some(Field::LowerBound)
    } else if key == Field::UpperBound.key_bytes() {
        Some(Field::UpperBound)
    } else if key == Field::User.key_bytes() {
        Some(Field::User)
    } else if key == Field::RealmPda.key_bytes() {
        Some(Field::RealmPda)
    } else if key == Field::UserAccountPda.key_bytes() {
        Some(Field::UserAccountPda)
    } else if key == Field::SpaceshipPda.key_bytes() {
        Some(Field::SpaceshipPda)
    } else {
        None
    }
}

/// Every key is ASCII text, so its bytes are its characters one for one.
pub proof fn lemma_keys_are_ascii(field: Field)
    ensures
        vstd::utf8::is_ascii_chars(field.key_text()),
        vstd::utf8::encode_utf8(field.key_text()) == field.key_bytes(),
{
    reveal_strlit("PID");
    reveal_strlit("LOWER_BOUND");
    reveal_strlit("UPPER_BOUND");
    reveal_strlit("USER");
    reveal_strlit("REALM_PDA");
    reveal_strlit("USER_ACCOUNT_PDA");
    reveal_strlit("SPACESHIP_PDA");
    vstd::utf8::is_ascii_chars_encode_utf8(field.key_text());
    assert(vstd::utf8::encode_utf8(field.key_text()) =~= field.key_bytes());
}

/// Every key names its own field, is ASCII, and holds neither `=` nor a
/// comma.
pub proof fn lemma_field_of_own_key(field: Field)
    ensures
        field_of_key(field.key_bytes()) == Some(field),
        forall|i: int| 0 <= i < field.key_bytes().len() ==> #[trigger] field.key_bytes()[i] < 0x80,
        !field.key_bytes().contains(crate::text::EQUALS),
        !field.key_bytes().contains(crate::text::COMMA),
{
    reveal_strlit("PID");
    reveal_strlit("LOWER_BOUND");
    reveal_strlit("UPPER_BOUND");
    reveal_strlit("USER");
    reveal_strlit("REALM_PDA");
    reveal_strlit("USER_ACCOUNT_PDA");
    reveal_strlit("SPACESHIP_PDA");
    let key = field.key_bytes();
    assert(Field::LowerBound.key_bytes()[0] != Field::UpperBound.key_bytes()[0]);
    assert(Field::ProgramId.key_bytes().len() == 3);
    assert(Field::LowerBound.key_bytes().len() == 11);
    assert(Field::UpperBound.key_bytes().len() == 11);
    assert(Field::User.key_bytes().len() == 4);
    assert(Field::RealmPda.key_bytes().len() == 9);
    assert(Field::UserAccountPda.key_bytes().len() == 16);
    assert(Field::SpaceshipPda.key_bytes().len() == 13);
    assert forall|i: int| 0 <= i < key.len() implies #[trigger] key[i] < 0x80 && key[i]
        != crate::text::EQUALS && key[i] != crate::text::COMMA by {
        assert(key[i] == field.key_text()[i] as u8);
    }
}

} // verus!
