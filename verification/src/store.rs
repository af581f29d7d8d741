//! The pure parts of the object store: the repository's fixed layout
//! strings, the case-insensitive matching of fan-out directory and file
//! names against a reference, and the decode-and-verify step of a lookup.
//! The filesystem itself is driven by the embedding program, which hands
//! these functions plain names and bytes and performs the reads and
//! writes they decide.

use crate::bytesutil::{bytes_eq_icase, eq_icase, spec_ascii_lower};
use crate::error::StoreError;
use crate::ids::ObjectRef;
use crate::object::{
    decode_ok, envelope_bytes, spec_parse_envelope, Object,
};
use crate::zlib::inflate_of;
use vstd::prelude::*;
use vstd::string::StringSliceAdditionalSpecFns;
use vstd::utf8::encode_utf8;

verus! {

/// What the repository's `HEAD` file holds: a symbolic reference to the
/// static default branch pointer.
pub fn head_contents() -> (r: &'static str)
    ensures
        r@ == "ref: refs/heads/master\n"@,
{
    "ref: refs/heads/master\n"
}

/// The first listed name that matches `target` up to ASCII case, in
/// listing order; `NotFound` exactly when no name matches.
pub fn pick_entry(names: &Vec<String>, target: &str) -> (r: Result<usize, StoreError>)
    ensures
        match r {
            Ok(i) => i < names@.len() && eq_icase(
                encode_utf8(names@[i as int]@),
                target.spec_bytes(),
            ) && (forall|j: int|
                0 <= j < i ==> !eq_icase(encode_utf8(#[trigger] names@[j]@), target.spec_bytes())),
            Err(e) => e == StoreError::NotFound && (forall|j: int|
                0 <= j < names@.len() ==> !eq_icase(
                    encode_utf8(#[trigger] names@[j]@),
                    target.spec_bytes(),
                )),
        },
{
    let n: usize = names.len();
    let mut i: usize = 0;
    while i < n
        invariant
            n == names@.len(),
            i <= n,
            forall|j: int|
                0 <= j < i ==> !eq_icase(encode_utf8(#[trigger] names@[j]@), target.spec_bytes()),
        decreases n - i,
    {
        let name: &String = &names[i];
        if bytes_eq_icase(name.as_str().as_bytes(), target.as_bytes()) {
            return Ok(i);
        }
        i = i + 1;
    }
    Err(StoreError::NotFound)
}

/// The read side of a lookup, once the matched file's bytes are in hand:
/// decode them and verify that the decoded object's recomputed
/// identifier still matches the requested reference. Corruption surfaces
/// as `Malformed` or `HashMismatch`, never as a silently wrong object.
pub fn check_found_object(oref: &ObjectRef, raw: &[u8]) -> (r: Result<Object, StoreError>)
    ensures
        match r {
            Ok(o) => {
                &&& o.wf()
                &&& inflate_of(raw@) is Some
                &&& spec_parse_envelope(inflate_of(raw@)->Some_0) == Some(
                    (o.spec_kind_bytes(), o.spec_payload()),
                )
                &&& eq_icase(o.spec_hex_id(), oref.spec_hex())
            },
            Err(e) => match inflate_of(raw@) {
                None => e == StoreError::Malformed,
                Some(env) => {
                    if !decode_ok(env) {
                        e == StoreError::Malformed
                    } else {
                        match spec_parse_envelope(env) {
                            Some((kind, payload)) => e == StoreError::HashMismatch && !eq_icase(
                                crate::numbers::spec_hex(
                                    crate::digest::sha1_of(envelope_bytes(kind, payload)),
                                ),
                                oref.spec_hex(),
                            ),
                            None => false,
                        }
                    }
                },
            },
        },
{
    let object = match Object::decode(raw) {
        Ok(o) => o,
        Err(e) => {
            return Err(e);
        },
    };
    let id = object.hash_string();
    if oref.matches(id.as_str()) {
        proof {
            lemma_eq_icase_symmetric(encode_utf8(id@), oref.spec_hex());
        }
        Ok(object)
    } else {
        proof {
            lemma_eq_icase_symmetric(encode_utf8(id@), oref.spec_hex());
        }
        Err(StoreError::HashMismatch)
    }
}

/// Case-insensitive equality does not depend on the order of its sides.
proof fn lemma_eq_icase_symmetric(a: Seq<u8>, b: Seq<u8>)
    ensures
        eq_icase(a, b) == eq_icase(b, a),
{
    if eq_icase(a, b) {
        assert forall|i: int| 0 <= i < b.len() implies spec_ascii_lower(b[i]) == spec_ascii_lower(
            a[i],
        ) by {}
    }
    if eq_icase(b, a) {
        assert forall|i: int| 0 <= i < a.len() implies spec_ascii_lower(a[i]) == spec_ascii_lower(
            b[i],
        ) by {}
    }
}

/// Saving then finding: for every well-formed object, the encoded bytes
/// decode back to the same kind and payload, and the identifier
/// recomputed from them matches the identifier the object was stored
/// under. A lookup of a just-saved object therefore never reports
/// corruption.
pub proof fn lemma_store_round_trip(o: Object)
    requires
        o.wf(),
    ensures
        ({
            let env = envelope_bytes(o.spec_kind_bytes(), o.spec_payload());
            &&& spec_parse_envelope(env) == Some((o.spec_kind_bytes(), o.spec_payload()))
            &&& decode_ok(env)
            &&& eq_icase(
                crate::numbers::spec_hex(crate::digest::sha1_of(env)),
                o.spec_hex_id(),
            )
        }),
{
    crate::object::lemma_object_round_trip(o);
}

} // verus!
