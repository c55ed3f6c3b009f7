//! Content addresses.

use vstd::prelude::*;

use crate::bytes::same_bytes;
use crate::digest;
use crate::digest::blake3_hash;
use crate::error::Error;
use crate::hexadecimal as hex;
use crate::hexadecimal::{decode_hex_32, encode_hex};

verus! {

/// Content address of an immutable block: the BLAKE3 hash of its bytes.
///
/// Two blocks with the same bytes always have the same `BlockId`, which gives
/// the store deduplication and integrity verification for free.
#[derive(Clone, Copy, Debug, PartialEq, Eq, Hash, PartialOrd, Ord)]
pub struct BlockId(pub [u8; 32]);

impl View for BlockId {
    type V = Seq<u8>;

    open spec fn view(&self) -> Seq<u8> {
        self.0@
    }
}

/// The block id that a text names, if it names one.
pub open spec fn id_of_text(text: Seq<char>) -> Option<Seq<u8>> {
    if hex::is_hex_text(text) && text.len() == 64 {
        Some(hex::hex_bytes(text))
    } else {
        None
    }
}

impl BlockId {
    /// The content address of `bytes`.
    pub fn of(bytes: &[u8]) -> (id: Self)
        ensures
            id@ == digest::blake3_digest(bytes@),
    {
        BlockId(blake3_hash(bytes))
    }

    pub fn as_bytes(&self) -> (bytes: &[u8; 32])
        ensures
            *bytes == self.0,
            bytes@ == self@,
    {
        &self.0
    }

    /// Verify that `bytes` hash to this id.
    pub fn verify(&self, bytes: &[u8]) -> (ok: bool)
        ensures
            ok == (digest::blake3_digest(bytes@) == self@),
    {
        let actual = BlockId::of(bytes);
        actual.same(self)
    }

    /// Whether two ids are the same id.
    pub fn same(&self, other: &BlockId) -> (r: bool)
        ensures
            r == (self@ == other@),
            r == (*self == *other),
    {
        proof {
            if self@ == other@ {
                assert(self.0 =~= other.0);
            }
        }
        same_bytes(self.0.as_slice(), other.0.as_slice())
    }

    /// The id as sixty-four lowercase hexadecimal digits.
    pub fn to_string(&self) -> (text: String)
        ensures
            text@ == hex::hex_text(self@),
    {
        encode_hex(self.0.as_slice())
    }

    /// Reads an id written as sixty-four hexadecimal digits of either case.
    pub fn parse(text: &str) -> (r: Result<Self, Error>)
        ensures
            match r {
                Ok(id) => id_of_text(text@) == Some(id@),
                Err(e) => id_of_text(text@) is None && (e matches Error::InvalidId(s) && s@ == text@),
            },
    {
        match decode_hex_32(text) {
            Some(raw) => Ok(BlockId(raw)),
            None => Err(Error::InvalidId(text.to_owned())),
        }
    }
}

impl std::str::FromStr for BlockId {
    type Err = Error;

    fn from_str(s: &str) -> (r: Result<Self, Error>)
        ensures
            match r {
                Ok(id) => id_of_text(s@) == Some(id@),
                Err(e) => id_of_text(s@) is None && (e matches Error::InvalidId(t) && t@ == s@),
            },
    {
        BlockId::parse(s)
    }
}

/// Writing an id as text and reading it back gives the id.
pub proof fn id_text_round_trip(id: BlockId)
    ensures
        id_of_text(hex::hex_text(id@)) == Some(id@),
{
    hex::hex_round_trip(id@);
}

/// A text names an id exactly if it is sixty-four hexadecimal digits, of either
/// case; and two texts name the same id exactly if their digits stand for the same
/// numbers.
pub proof fn an_id_is_sixty_four_digits(text: Seq<char>)
    ensures
        id_of_text(text) is Some <==> text.len() == 64 && forall|i: int|
            0 <= i < 64 ==> hex::is_hex_digit(#[trigger] text[i]),
        id_of_text(text) matches Some(id) ==> id.len() == 32 && forall|i: int|
            0 <= i < 32 ==> (#[trigger] id[i]) as int == 16 * hex::hex_value(text[2 * i])
                + hex::hex_value(text[2 * i + 1]),
{
    if text.len() == 64 {
        if forall|i: int| 0 <= i < 64 ==> hex::is_hex_digit(#[trigger] text[i]) {
            let id = hex::hex_bytes(text);
            assert forall|i: int| 0 <= i < 32 implies (#[trigger] id[i]) as int == 16
                * hex::hex_value(text[2 * i]) + hex::hex_value(text[2 * i + 1]) by {
                assert(hex::is_hex_digit(text[2 * i]));
                assert(hex::is_hex_digit(text[2 * i + 1]));
            }
        }
    }
}

} // verus!
