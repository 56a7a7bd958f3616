//! The ways in which decoding a parameter line can fail.

use crate::field::Field;
use vstd::prelude::*;
use vstd::string::StringExecFns;

verus! {

/// Why a parameter line was refused.
#[derive(Clone, Copy, Debug, PartialEq, Eq, Hash)]
pub enum DecodeError {
    /// The line is not valid UTF-8 text.
    MalformedInput,
    /// The value given for this field does not denote a value of its type.
    MalformedField(Field),
    /// This required field was never set, or was set to the value that
    /// stands for "not set".
    MissingOrDefaultField(Field),
}

impl DecodeError {
    /// The message of the error, as text: a malformed value and a missing
    /// field are named by the field's key.
    pub open spec fn message_text(self) -> Seq<char> {
        match self {
            DecodeError::MalformedInput => "parameters are not valid UTF-8"@,
            DecodeError::MalformedField(field) => field.key_text() + " is malformed"@,
            DecodeError::MissingOrDefaultField(Field::UpperBound) => {
                "UPPER_BOUND must be greater than 0"@
            },
            DecodeError::MissingOrDefaultField(field) => field.key_text()
                + " cannot be undefined"@,
        }
    }

    /// The field that the error is about, if it is about one.
    pub open spec fn subject(self) -> Option<Field> {
        match self {
            DecodeError::MalformedInput => None,
            DecodeError::MalformedField(field) => Some(field),
            DecodeError::MissingOrDefaultField(field) => Some(field),
        }
    }

    /// The field that the error is about, if it is about one.
    pub fn field(&self) -> (field: Option<Field>)
        ensures
            field == self.subject(),
    {
        match self {
            DecodeError::MalformedInput => None,
            DecodeError::MalformedField(field) => Some(*field),
            DecodeError::MissingOrDefaultField(field) => Some(*field),
        }
    }

    /// A message for a human reader.
    pub fn message(&self) -> (message: String)
        ensures
            message@ == self.message_text(),
    {
        match self {
            DecodeError::MalformedInput => String::from_str("parameters are not valid UTF-8"),
            DecodeError::MalformedField(field) => {
                String::from_str(field.key()).concat(" is malformed")
            },
            DecodeError::MissingOrDefaultField(Field::UpperBound) => {
                String::from_str("UPPER_BOUND must be greater than 0")
            },
            DecodeError::MissingOrDefaultField(field) => {
                String::from_str(field.key()).concat(" cannot be undefined")
            },
        }
    }
}

} // verus!
