//! The 64-bit identifier under which a resource is stored and looked up.

use crate::encryption::md5_engine::{digest_hash, fold_digest, lemma_digest_hash_range, md5_digest, md5_of};
use crate::misc::resource_id::{with_platform, ResourceID};
use crate::text::{
    chars_of,
    format_hex16,
    hex16,
    law_hex16_is_read,
    parse_u64,
    parsed_u64,
    slice_of,
    string_of,
};
use vstd::prelude::*;
use vstd::std_specs::cmp::PartialEqSpecImpl;
use vstd::std_specs::convert::FromSpecImpl;
use vstd::utf8::encode_utf8;

verus! {

/// The first value that is no identifier; it stands for "no resource".
pub const INVALID_ID: u64 = 0x00FF_FFFF_FFFF_FFFF;

/// Why a text or a number is no runtime resource id.
#[derive(Debug)]
pub enum RuntimeResourceIDError {
    /// The number lies outside the range of identifiers.
    InvalidID(u64),
    /// The text is no hexadecimal number.
    ParseError(String),
}

/// Represents a runtime resource identifier.
#[derive(Debug, PartialEq, Eq, Structural, Hash, Clone, Copy)]
pub struct RuntimeResourceID {
    pub id: u64,
}

impl View for RuntimeResourceID {
    type V = u64;

    open spec fn view(&self) -> u64 {
        self.id
    }
}

impl Default for RuntimeResourceID {
    fn default() -> (r: Self)
        ensures
            r.id == 0,
    {
        RuntimeResourceID { id: 0 }
    }
}

impl PartialEq<u64> for RuntimeResourceID {
    fn eq(&self, other: &u64) -> (r: bool) {
        self.id == *other
    }
}

impl PartialEqSpecImpl<u64> for RuntimeResourceID {
    open spec fn obeys_eq_spec() -> bool {
        true
    }

    open spec fn eq_spec(&self, other: &u64) -> bool {
        self.id == *other
    }
}

/// The identifier that a raw 64-bit value stands for: itself where it is in
/// range, the sentinel where it is not.
pub open spec fn collapsed(value: u64) -> u64 {
    if value < INVALID_ID {
        value
    } else {
        INVALID_ID
    }
}

impl From<u64> for RuntimeResourceID {
    fn from(value: u64) -> (r: Self) {
        let rrid = RuntimeResourceID { id: value };
        if !rrid.is_valid() {
            RuntimeResourceID::invalid()
        } else {
            rrid
        }
    }
}

impl FromSpecImpl<u64> for RuntimeResourceID {
    open spec fn obeys_from_spec() -> bool {
        true
    }

    open spec fn from_spec(value: u64) -> Self {
        RuntimeResourceID { id: collapsed(value) }
    }
}

/// A raw value at or above the sentinel collapses to the sentinel, which is
/// no valid identifier; a value below it is kept. `RuntimeResourceID::from`
/// makes the identifier `collapsed(value)`.
pub proof fn law_out_of_range_collapses(value: u64)
    ensures
        value >= INVALID_ID ==> collapsed(value) == INVALID_ID && !(RuntimeResourceID {
            id: collapsed(value),
        }).valid(),
        value < INVALID_ID ==> collapsed(value) == value && (RuntimeResourceID {
            id: collapsed(value),
        }).valid(),
{
}

/// `text` without the `0x` that may lead it.
pub open spec fn without_hex_prefix(text: Seq<char>) -> Seq<char> {
    if text.len() >= 2 && text[0] == '0' && text[1] == 'x' {
        text.subrange(2, text.len() as int)
    } else {
        text
    }
}

/// Reading the hexadecimal text of an identifier gives the identifier:
/// what `to_hex_string` writes of a number is what `from_hex_string` reads
/// as that number, so an identifier in range comes back as it is.
pub proof fn law_hex_string_is_read(id: u64)
    ensures
        parsed_u64(without_hex_prefix(hex16(id)), 16) == Some(id),
{
    law_hex16_is_read(id);
}

impl RuntimeResourceID {
    /// Whether the identifier is in range: below the sentinel.
    pub open spec fn valid(&self) -> bool {
        self.id < INVALID_ID
    }

    /// The identifier as sixteen upper-case hexadecimal digits.
    pub fn to_hex_string(&self) -> (s: String)
        ensures
            s@ == hex16(self.id),
    {
        string_of(&format_hex16(self.id))
    }

    #[verifier::when_used_as_spec(valid)]
    pub fn is_valid(&self) -> (r: bool)
        ensures
            r == self.valid(),
    {
        self.id < INVALID_ID
    }

    /// The sentinel.
    pub fn invalid() -> (r: Self)
        ensures
            r.id == INVALID_ID,
            !r.valid(),
    {
        Self { id: INVALID_ID }
    }

    /// The identifier of the resource whose identifier in text is `uri`: the
    /// hash of its resource path, which carries the platform tag.
    pub open spec fn hashed(uri: Seq<char>) -> RuntimeResourceID {
        RuntimeResourceID { id: digest_hash(md5_of(encode_utf8(with_platform(uri)))) as u64 }
    }

    /// Create RuntimeResourceID from ResourceID. The result never lies
    /// above the sentinel, and it is valid unless bytes 1 to 7 of the digest
    /// are all `0xFF`.
    pub fn from_resource_id(rid: &ResourceID) -> (r: Self)
        requires
            rid@.contains('.'),
        ensures
            r == Self::hashed(rid@),
            r.id <= INVALID_ID,
            r.valid() <==> !(forall|i: int|
                1 <= i <= 7 ==> md5_of(encode_utf8(with_platform(rid@)))[i] == 0xFF),
    {
        let path = rid.resource_path();
        let digest = md5_digest(path.as_str().as_bytes());
        proof {
            lemma_digest_hash_range(digest@);
        }
        Self { id: fold_digest(&digest) }
    }

    /// The identifier of the text `string`: the hash of its UTF-8 bytes.
    /// Prefer `from_resource_id` where a resource id is at hand.
    pub fn from_raw_string(string: &str) -> (r: Self)
        ensures
            r.id == digest_hash(md5_of(encode_utf8(string@))),
            r.id <= INVALID_ID,
    {
        let digest = md5_digest(string.as_bytes());
        proof {
            lemma_digest_hash_range(digest@);
        }
        Self { id: fold_digest(&digest) }
    }

    /// Reads an identifier from hexadecimal digits, with or without a leading
    /// `0x`. A text that is no 64-bit hexadecimal number gives `ParseError`
    /// with the digits that were tried; a number out of range gives
    /// `InvalidID` with that number.
    pub fn from_hex_string(hex_string: &str) -> (r: Result<Self, RuntimeResourceIDError>)
        ensures
            match parsed_u64(without_hex_prefix(hex_string@), 16) {
                Some(n) => if n < INVALID_ID {
                    r == Ok::<Self, RuntimeResourceIDError>(RuntimeResourceID { id: n })
                } else {
                    r == Err::<Self, RuntimeResourceIDError>(RuntimeResourceIDError::InvalidID(n))
                },
                None => r matches Err(RuntimeResourceIDError::ParseError(t)) && t@
                    == without_hex_prefix(hex_string@),
            },
    {
        let all = chars_of(hex_string);
        let digits = if all.len() >= 2 && all[0] == '0' && all[1] == 'x' {
            slice_of(&all, 2, all.len())
        } else {
            all
        };
        match parse_u64(&digits, 16) {
            Some(num) => {
                let rrid = RuntimeResourceID { id: num };
                if !rrid.is_valid() {
                    Err(RuntimeResourceIDError::InvalidID(num))
                } else {
                    Ok(rrid)
                }
            },
            None => Err(RuntimeResourceIDError::ParseError(string_of(&digits))),
        }
    }
}

} // verus!
