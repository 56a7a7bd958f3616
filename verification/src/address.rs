//! The 32-byte address of an account or program, and the reading of one from
//! its base-58 text.

use crate::text::same_bytes;
use solana_pubkey::Pubkey;
use std::str::FromStr;
use vstd::prelude::*;

verus! {

/// Number of bytes in an address.
pub const ADDRESS_LEN: usize = 32;

/// A 32-byte address. The all-zero address stands for "not set".
#[derive(Clone, Copy, Debug, PartialEq, Eq, Hash)]
pub struct Address {
    pub bytes: [u8; ADDRESS_LEN],
}

impl View for Address {
    type V = Seq<u8>;

    open spec fn view(&self) -> Seq<u8> {
        self.bytes@
    }
}

/// The bytes of the address that stands for "not set": 32 zeros.
pub open spec fn unset_bytes() -> Seq<u8> {
    Seq::new(32, |i: int| 0u8)
}

/// What `Pubkey::from_str` makes of a text: the 32 bytes of the address it
/// denotes, or none where the text is refused. A text that is not valid
/// UTF-8 denotes none.
pub uninterp spec fn address_of_text(text: Seq<u8>) -> Option<Seq<u8>>;

/// Reads an address from its text with `Pubkey::from_str` of `solana-pubkey`.
///
/// The contract is taken on trust. It claims that the outcome is a function
/// of the bytes of the text alone, named `address_of_text`: `Some` with the
/// 32 bytes of the address that `from_str` returned, `None` where it
/// returned an error. Which texts denote which address is not stated. Bytes
/// that `std::str::from_utf8` refuses never reach `from_str` and give
/// `None`.
#[verifier::external_body]
pub(crate) fn read_address(text: &[u8]) -> (address: Option<Address>)
    ensures
        match address {
            Some(a) => address_of_text(text@) == Some(a@),
            None => address_of_text(text@) is None,
        },
{
    match std::str::from_utf8(text) {
        Ok(s) => match Pubkey::from_str(s) {
            Ok(key) => Some(Address { bytes: key.to_bytes() }),
            Err(_) => None,
        },
        Err(_) => None,
    }
}

impl Address {
    /// The address made of the given bytes.
    pub fn new(bytes: [u8; ADDRESS_LEN]) -> (address: Address)
        ensures
            address@ == bytes@,
            address.bytes == bytes,
    {
        Address { bytes }
    }

    /// The address that stands for "not set".
    pub fn unset() -> (address: Address)
        ensures
            address@ == unset_bytes(),
    {
        let address = Address { bytes: [0u8; ADDRESS_LEN] };
        assert(address@ =~= unset_bytes());
        address
    }

    /// The bytes of the address.
    pub fn to_bytes(&self) -> (bytes: [u8; ADDRESS_LEN])
        ensures
            bytes@ == self@,
            bytes == self.bytes,
    {
        self.bytes
    }

    /// Whether this is the address that stands for "not set".
    pub fn is_unset(&self) -> (unset: bool)
        ensures
            unset == (self@ == unset_bytes()),
    {
        let zero = Address::unset();
        same_bytes(self.bytes.as_slice(), zero.bytes.as_slice())
    }
}

impl Default for Address {
    fn default() -> (address: Address)
        ensures
            address@ == unset_bytes(),
    {
        Address::unset()
    }
}

} // verus!
