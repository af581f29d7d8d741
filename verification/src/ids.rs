//! Textual object identifiers: forty hexadecimal characters naming a
//! twenty-byte digest. References are validated once and matched against
//! directory and file names case-insensitively.

use crate::bytesutil::{bytes_eq_icase, eq_icase, lemma_ascii_valid_utf8, string_from_utf8};
use crate::error::StoreError;
use crate::numbers::is_hex_digit;
use vstd::prelude::*;
use vstd::slice::{slice_subrange, slice_to_vec};
use vstd::string::StringSliceAdditionalSpecFns;
use vstd::utf8::encode_utf8;

verus! {

/// A syntactically valid object identifier, as supplied by a caller:
/// forty hexadecimal characters, case preserved.
#[derive(Clone, Debug, PartialEq, Eq)]
pub struct ObjectRef {
    /// The forty hexadecimal characters, as bytes, case preserved.
    pub hex: Vec<u8>,
}

impl ObjectRef {
    /// A valid reference holds exactly forty hexadecimal digits.
    pub open spec fn wf(&self) -> bool {
        &&& self.hex@.len() == 40
        &&& forall|i: int| 0 <= i < 40 ==> is_hex_digit(#[trigger] self.hex@[i])
    }

    /// The hexadecimal characters of the reference, as bytes.
    pub open spec fn spec_hex(&self) -> Seq<u8> {
        self.hex@
    }

    /// Validates a candidate identifier: it is accepted exactly when it is
    /// forty hexadecimal characters, and rejected as `InvalidArgument`
    /// otherwise.
    pub fn from_sha1(hash: &str) -> (r: Result<ObjectRef, StoreError>)
        ensures
            match r {
                Ok(oref) => oref.wf() && oref.spec_hex() == hash.spec_bytes(),
                Err(e) => e == StoreError::InvalidArgument && !(hash.spec_bytes().len() == 40
                    && forall|i: int|
                    0 <= i < 40 ==> is_hex_digit(#[trigger] hash.spec_bytes()[i])),
            },
    {
        let b = hash.as_bytes();
        if b.len() != 40 {
            return Err(StoreError::InvalidArgument);
        }
        let mut i: usize = 0;
        while i < 40
            invariant
                b@ == hash.spec_bytes(),
                b@.len() == 40,
                i <= 40,
                forall|j: int| 0 <= j < i ==> is_hex_digit(#[trigger] b@[j]),
            decreases 40 - i,
        {
            let c: u8 = *vstd::slice::slice_index_get(b, i);
            if !((48 <= c && c <= 57) || (97 <= c && c <= 102) || (65 <= c && c <= 70)) {
                proof {
                    assert(!is_hex_digit(hash.spec_bytes()[i as int]));
                }
                return Err(StoreError::InvalidArgument);
            }
            i = i + 1;
        }
        Ok(ObjectRef { hex: slice_to_vec(b) })
    }

    /// The first two characters, naming the fan-out directory.
    pub fn hash_prefix(&self) -> (r: String)
        requires
            self.wf(),
        ensures
            encode_utf8(r@) == self.spec_hex().subrange(0, 2),
    {
        let p = slice_subrange(self.hex.as_slice(), 0, 2);
        proof {
            lemma_hex_is_ascii(self.spec_hex().subrange(0, 2));
        }
        string_from_utf8(slice_to_vec(p))
    }

    /// The last thirty-eight characters, naming the file inside the
    /// fan-out directory.
    pub fn hash_remainder(&self) -> (r: String)
        requires
            self.wf(),
        ensures
            encode_utf8(r@) == self.spec_hex().subrange(2, 40),
    {
        let p = slice_subrange(self.hex.as_slice(), 2, 40);
        proof {
            lemma_hex_is_ascii(self.spec_hex().subrange(2, 40));
        }
        string_from_utf8(slice_to_vec(p))
    }

    /// Whether a file name matches the reference past its two-character
    /// prefix, ignoring ASCII case.
    pub fn matches_remainder(&self, remainder: &str) -> (r: bool)
        requires
            self.wf(),
        ensures
            r == eq_icase(remainder.spec_bytes(), self.spec_hex().subrange(2, 40)),
    {
        let tail = slice_subrange(self.hex.as_slice(), 2, 40);
        bytes_eq_icase(remainder.as_bytes(), tail)
    }

    /// Whether a full forty-character identifier matches the reference,
    /// ignoring ASCII case.
    pub fn matches(&self, hash: &str) -> (r: bool)
        ensures
            r == eq_icase(hash.spec_bytes(), self.spec_hex()),
    {
        bytes_eq_icase(hash.as_bytes(), self.hex.as_slice())
    }

    /// The reference's characters, as the bytes they were supplied in.
    pub fn as_hex_bytes(&self) -> (r: &Vec<u8>)
        ensures
            r@ == self.spec_hex(),
    {
        &self.hex
    }
}

/// Hexadecimal digits are ASCII, hence valid UTF-8.
pub proof fn lemma_hex_is_ascii(s: Seq<u8>)
    requires
        forall|i: int| 0 <= i < s.len() ==> is_hex_digit(#[trigger] s[i]),
    ensures
        vstd::utf8::valid_utf8(s),
{
    assert(forall|i: int| 0 <= i < s.len() ==> s[i] < 128);
    lemma_ascii_valid_utf8(s);
}

} // verus!
