//! The object model and the loose-object codec: the envelope format
//! `<kind> <decimal length>\0<payload>`, kind dispatch, the canonical
//! SHA-1 identifier, and the compressed encoding that reaches the disk.

use crate::bytesutil::{
    bytes_eq, find_byte, lemma_ascii_valid_utf8, lemma_find_byte, lemma_find_byte_exact,
    lemma_valid_utf8_split_after_ascii, spec_find_byte, string_from_utf8, utf8_check,
};
use crate::commit::{spec_parse_commit, Commit};
use crate::digest::{sha1_digest, sha1_of};
use crate::error::StoreError;
use crate::numbers::{
    is_digit, lemma_hex_digits, lemma_parse_render, lemma_render_digits, render_hex, render_u64,
    spec_hex, spec_parse_plus, spec_render,
};
use crate::tree::{spec_parse_items, TreeData};
use crate::zlib::{deflate_of, inflate_of, zlib_compress, zlib_decompress};
use vstd::prelude::*;
use vstd::slice::{slice_subrange, slice_to_vec};
use vstd::string::StringSliceAdditionalSpecFns;
use vstd::utf8::{encode_utf8, valid_utf8};

verus! {

/// The `blob` kind label.
pub open spec fn kind_blob() -> Seq<u8> {
    seq![98u8, 108u8, 111u8, 98u8]
}

/// The `tree` kind label.
pub open spec fn kind_tree() -> Seq<u8> {
    seq![116u8, 114u8, 101u8, 101u8]
}

/// The `commit` kind label.
pub open spec fn kind_commit() -> Seq<u8> {
    seq![99u8, 111u8, 109u8, 109u8, 105u8, 116u8]
}

/// One stored record: a tagged union over the recognized kinds, with any
/// other kind preserved opaquely for round-trip fidelity.
pub enum Object {
    /// A record of a kind this library does not recognize, kept byte for
    /// byte.
    Unknown {
        /// The kind label as decoded from the envelope header.
        kind: String,
        /// The payload, untouched.
        data: Vec<u8>,
    },
    /// An opaque file payload.
    Blob(Vec<u8>),
    /// A commit record.
    Commit(Commit),
    /// A directory snapshot.
    Tree(TreeData),
}

/// What an unrecognized kind label must look like to survive a round
/// trip: no space or NUL (the header's delimiters), and none of the three
/// recognized labels, which decode to their own variants.
pub open spec fn unknown_kind_wf(kind: Seq<u8>) -> bool {
    &&& !kind.contains(32u8)
    &&& !kind.contains(0u8)
    &&& kind != kind_blob()
    &&& kind != kind_tree()
    &&& kind != kind_commit()
}

impl Object {
    /// The kind label, as bytes.
    pub open spec fn spec_kind_bytes(&self) -> Seq<u8> {
        match self {
            Object::Blob(_) => kind_blob(),
            Object::Commit(_) => kind_commit(),
            Object::Tree(_) => kind_tree(),
            Object::Unknown { kind, .. } => encode_utf8(kind@),
        }
    }

    /// The payload bytes, exactly as hashed and stored.
    pub open spec fn spec_payload(&self) -> Seq<u8> {
        match self {
            Object::Blob(data) => data@,
            Object::Commit(c) => c.text@,
            Object::Tree(t) => t.data@,
            Object::Unknown { data, .. } => data@,
        }
    }

    /// A well-formed object: its payload obeys its kind's grammar, and an
    /// unrecognized kind is one the envelope can carry.
    pub open spec fn wf(&self) -> bool {
        match self {
            Object::Blob(_) => true,
            Object::Commit(c) => c.wf(),
            Object::Tree(t) => t.wf(),
            Object::Unknown { kind, .. } => unknown_kind_wf(encode_utf8(kind@)),
        }
    }

    /// The canonical identifier: the SHA-1 digest of the uncompressed
    /// envelope, `kind`, space, decimal payload length, NUL, payload.
    pub open spec fn spec_hash(&self) -> Seq<u8> {
        sha1_of(envelope_bytes(self.spec_kind_bytes(), self.spec_payload()))
    }

    /// The identifier as forty lower-case hexadecimal characters.
    pub open spec fn spec_hex_id(&self) -> Seq<u8> {
        spec_hex(self.spec_hash())
    }
}

/// The uncompressed envelope of a record: kind, space, decimal payload
/// length, NUL, payload.
pub open spec fn envelope_bytes(kind: Seq<u8>, payload: Seq<u8>) -> Seq<u8> {
    kind + seq![32u8] + spec_render(payload.len(), 10) + seq![0u8] + payload
}

/// What splitting an uncompressed envelope yields: the kind and the
/// payload, provided the header ends in a NUL, is UTF-8, splits on a
/// space, and declares exactly the payload's length.
pub open spec fn spec_parse_envelope(b: Seq<u8>) -> Option<(Seq<u8>, Seq<u8>)> {
    match spec_find_byte(b, 0) {
        None => None,
        Some(z) => {
            let header = b.take(z);
            let payload = b.skip(z + 1);
            if !valid_utf8(header) {
                None
            } else {
                match spec_find_byte(header, 32) {
                    None => None,
                    Some(sp) => {
                        match spec_parse_plus(header.skip(sp + 1), 10) {
                            Some(n) => if n == payload.len() {
                                Some((header.take(sp), payload))
                            } else {
                                None
                            },
                            None => None,
                        }
                    },
                }
            }
        },
    }
}

/// Whether a decompressed envelope decodes into an object: the envelope
/// splits, and a recognized kind's payload obeys its grammar.
pub open spec fn decode_ok(env: Seq<u8>) -> bool {
    match spec_parse_envelope(env) {
        None => false,
        Some((kind, payload)) => {
            if kind == kind_tree() {
                spec_parse_items(payload) is Some
            } else if kind == kind_commit() {
                spec_parse_commit(payload) is Some
            } else {
                true
            }
        },
    }
}

/// A header built from a deliverable kind and any declared length splits
/// exactly when the declared length is the payload's actual length.
proof fn lemma_envelope_split(kind: Seq<u8>, n: nat, payload: Seq<u8>)
    requires
        valid_utf8(kind),
        !kind.contains(32u8),
        !kind.contains(0u8),
    ensures
        spec_parse_envelope(kind + seq![32u8] + spec_render(n, 10) + seq![0u8] + payload) == (
        if n == payload.len() {
            Some((kind, payload))
        } else {
            None
        }),
{
    broadcast use vstd::utf8::valid_utf8_concat;

    let dec = spec_render(n, 10);
    lemma_render_digits(n, 10);
    lemma_parse_render(n, 10);
    let b = kind + seq![32u8] + dec + seq![0u8] + payload;
    let z = kind.len() + 1 + dec.len();
    assert forall|j: int| 0 <= j < z implies b[j] != 0 by {
        if j < kind.len() {
            assert(b[j] == kind[j]);
            assert(kind.contains(0u8) <==> exists|k: int| 0 <= k < kind.len() && kind[k] == 0u8);
        } else if j == kind.len() {
            assert(b[j] == 32);
        } else {
            assert(b[j] == dec[j - kind.len() - 1]);
            assert(is_digit(dec[j - kind.len() - 1], 10));
        }
    }
    assert(b[z as int] == 0);
    lemma_find_byte_exact(b, 0, z as int);
    let header = b.take(z as int);
    assert(header =~= kind + (seq![32u8] + dec));
    assert(forall|j: int| 0 <= j < (seq![32u8] + dec).len() ==> (seq![32u8] + dec)[j] < 128) by {
        assert(forall|j: int| 0 <= j < dec.len() ==> is_digit(#[trigger] dec[j], 10));
        assert(forall|j: int|
            1 <= j < (seq![32u8] + dec).len() ==> (seq![32u8] + dec)[j] == dec[j - 1]);
    }
    lemma_ascii_valid_utf8(seq![32u8] + dec);
    assert(valid_utf8(header));
    assert forall|j: int| 0 <= j < kind.len() implies header[j] != 32 by {
        assert(header[j] == kind[j]);
        assert(kind.contains(32u8) <==> exists|k: int| 0 <= k < kind.len() && kind[k] == 32u8);
    }
    assert(header[kind.len() as int] == 32);
    lemma_find_byte_exact(header, 32, kind.len() as int);
    assert(header.take(kind.len() as int) =~= kind);
    assert(header.skip(kind.len() as int + 1) =~= dec);
    assert(dec[0] != 43) by {
        assert(is_digit(dec[0], 10));
    }
    assert(spec_parse_plus(dec, 10) == Some(n));
    assert(b.skip(z as int + 1) =~= payload);
}

/// An envelope built from a deliverable kind splits back into exactly
/// that kind and payload, whatever the payload holds.
pub proof fn lemma_envelope_round_trip(kind: Seq<u8>, payload: Seq<u8>)
    requires
        valid_utf8(kind),
        !kind.contains(32u8),
        !kind.contains(0u8),
    ensures
        spec_parse_envelope(envelope_bytes(kind, payload)) == Some((kind, payload)),
{
    lemma_envelope_split(kind, payload.len(), payload);
}

/// Corruption detection, the declared-length half: a loose object whose
/// header declares any length other than the payload's actual length
/// fails to split, so decoding reports it as malformed.
pub proof fn lemma_length_mismatch_malformed(kind: Seq<u8>, n: nat, payload: Seq<u8>)
    requires
        valid_utf8(kind),
        !kind.contains(32u8),
        !kind.contains(0u8),
        n != payload.len(),
    ensures
        spec_parse_envelope(kind + seq![32u8] + spec_render(n, 10) + seq![0u8] + payload) is None,
        !decode_ok(kind + seq![32u8] + spec_render(n, 10) + seq![0u8] + payload),
{
    lemma_envelope_split(kind, n, payload);
}

/// The kind label of any well-formed object can ride the envelope: it is
/// UTF-8 and holds no space or NUL.
pub proof fn lemma_kind_deliverable(o: Object)
    requires
        o.wf(),
    ensures
        valid_utf8(o.spec_kind_bytes()),
        !o.spec_kind_bytes().contains(32u8),
        !o.spec_kind_bytes().contains(0u8),
{
    broadcast use vstd::utf8::encode_utf8_valid_utf8;

    match o {
        Object::Unknown { kind, .. } => {
            assert(valid_utf8(encode_utf8(kind@)));
        },
        Object::Blob(_) => {
            lemma_ascii_valid_utf8(kind_blob());
            assert(!kind_blob().contains(32u8)) by {
                assert(forall|k: int| 0 <= k < 4 ==> kind_blob()[k] != 32);
            }
            assert(!kind_blob().contains(0u8)) by {
                assert(forall|k: int| 0 <= k < 4 ==> kind_blob()[k] != 0);
            }
        },
        Object::Tree(_) => {
            lemma_ascii_valid_utf8(kind_tree());
            assert(!kind_tree().contains(32u8)) by {
                assert(forall|k: int| 0 <= k < 4 ==> kind_tree()[k] != 32);
            }
            assert(!kind_tree().contains(0u8)) by {
                assert(forall|k: int| 0 <= k < 4 ==> kind_tree()[k] != 0);
            }
        },
        Object::Commit(_) => {
            lemma_ascii_valid_utf8(kind_commit());
            assert(!kind_commit().contains(32u8)) by {
                assert(forall|k: int| 0 <= k < 6 ==> kind_commit()[k] != 32);
            }
            assert(!kind_commit().contains(0u8)) by {
                assert(forall|k: int| 0 <= k < 6 ==> kind_commit()[k] != 0);
            }
        },
    }
}

/// Round trip: the envelope of any well-formed object splits back into
/// its kind and payload, and the payload decodes under its kind's
/// grammar. An encoded object therefore decodes to an object of the same
/// kind with the same payload — and content is all an object is.
pub proof fn lemma_object_round_trip(o: Object)
    requires
        o.wf(),
    ensures
        spec_parse_envelope(envelope_bytes(o.spec_kind_bytes(), o.spec_payload())) == Some(
            (o.spec_kind_bytes(), o.spec_payload()),
        ),
        decode_ok(envelope_bytes(o.spec_kind_bytes(), o.spec_payload())),
{
    lemma_kind_deliverable(o);
    lemma_envelope_round_trip(o.spec_kind_bytes(), o.spec_payload());
    match o {
        Object::Unknown { kind, .. } => {},
        Object::Blob(_) => {
            assert(kind_blob() != kind_tree() && kind_blob() != kind_commit()) by {
                assert(kind_blob()[0] == 98 && kind_tree()[0] == 116);
            }
        },
        Object::Tree(_) => {},
        Object::Commit(_) => {},
    }
}

/// The `blob` label's bytes.
pub(crate) fn blob_kind_slice() -> (r: &'static [u8])
    ensures
        r@ == kind_blob(),
{
    let s: &'static str = "blob";
    let b = s.as_bytes();
    proof {
        reveal_strlit("blob");
        vstd::utf8::is_ascii_chars_encode_utf8("blob"@);
        assert(b@ =~= kind_blob());
    }
    b
}

/// The `tree` label's bytes.
pub(crate) fn tree_kind_slice() -> (r: &'static [u8])
    ensures
        r@ == kind_tree(),
{
    let s: &'static str = "tree";
    let b = s.as_bytes();
    proof {
        reveal_strlit("tree");
        vstd::utf8::is_ascii_chars_encode_utf8("tree"@);
        assert(b@ =~= kind_tree());
    }
    b
}

/// The `commit` label's bytes.
fn commit_kind_slice() -> (r: &'static [u8])
    ensures
        r@ == kind_commit(),
{
    let s: &'static str = "commit";
    let b = s.as_bytes();
    proof {
        reveal_strlit("commit");
        vstd::utf8::is_ascii_chars_encode_utf8("commit"@);
        assert(b@ =~= kind_commit());
    }
    b
}

impl Object {
    /// The kind label, as text.
    pub fn kind(&self) -> (r: &str)
        ensures
            r.spec_bytes() == self.spec_kind_bytes(),
    {
        match self {
            Object::Blob(_) => {
                let s: &str = "blob";
                proof {
                    reveal_strlit("blob");
                    vstd::utf8::is_ascii_chars_encode_utf8("blob"@);
                    assert(s.spec_bytes() =~= kind_blob());
                }
                s
            },
            Object::Commit(_) => {
                let s: &str = "commit";
                proof {
                    reveal_strlit("commit");
                    vstd::utf8::is_ascii_chars_encode_utf8("commit"@);
                    assert(s.spec_bytes() =~= kind_commit());
                }
                s
            },
            Object::Tree(_) => {
                let s: &str = "tree";
                proof {
                    reveal_strlit("tree");
                    vstd::utf8::is_ascii_chars_encode_utf8("tree"@);
                    assert(s.spec_bytes() =~= kind_tree());
                }
                s
            },
            Object::Unknown { kind, .. } => kind.as_str(),
        }
    }

    /// The payload bytes, exactly as hashed and stored.
    pub fn contents_bytes(&self) -> (r: &[u8])
        ensures
            r@ == self.spec_payload(),
    {
        match self {
            Object::Blob(data) => data.as_slice(),
            Object::Commit(c) => c.bytes(),
            Object::Tree(t) => t.data.as_slice(),
            Object::Unknown { data, .. } => data.as_slice(),
        }
    }

    /// The uncompressed envelope: kind, space, decimal payload length,
    /// NUL, payload.
    fn envelope(&self) -> (r: Vec<u8>)
        ensures
            r@ == envelope_bytes(self.spec_kind_bytes(), self.spec_payload()),
    {
        let mut buf: Vec<u8> = Vec::new();
        let kind = self.kind();
        let mut kb = slice_to_vec(kind.as_bytes());
        buf.append(&mut kb);
        buf.push(32);
        let payload = self.contents_bytes();
        let mut len_bytes = render_u64(payload.len() as u64, 10);
        buf.append(&mut len_bytes);
        buf.push(0);
        let mut pb = slice_to_vec(payload);
        buf.append(&mut pb);
        proof {
            assert(buf@ =~= envelope_bytes(self.spec_kind_bytes(), self.spec_payload()));
        }
        buf
    }

    /// The canonical identifier: SHA-1 over the uncompressed envelope,
    /// computed fresh on every call.
    pub fn hash(&self) -> (r: Vec<u8>)
        ensures
            r@ == self.spec_hash(),
            r@.len() == 20,
    {
        let env = self.envelope();
        sha1_digest(env.as_slice())
    }

    /// The identifier as forty lower-case hexadecimal characters.
    pub fn hash_string(&self) -> (r: String)
        ensures
            encode_utf8(r@) == self.spec_hex_id(),
    {
        let digest = self.hash();
        let hex = render_hex(digest.as_slice());
        proof {
            lemma_hex_digits(digest@);
            crate::ids::lemma_hex_is_ascii(hex@);
        }
        string_from_utf8(hex)
    }

    /// Encodes the object for storage: the envelope, compressed as one
    /// zlib stream that decompresses back to exactly the envelope.
    pub fn encode(&self) -> (r: Vec<u8>)
        ensures
            r@ == deflate_of(envelope_bytes(self.spec_kind_bytes(), self.spec_payload())),
            inflate_of(r@) == Some(envelope_bytes(self.spec_kind_bytes(), self.spec_payload())),
    {
        let env = self.envelope();
        zlib_compress(env.as_slice())
    }

    /// Decodes a stored record: decompresses the stream, splits the
    /// envelope, and dispatches on the kind, keeping the payload byte for
    /// byte. Fails as `Malformed` exactly when the stream does not
    /// decompress, the envelope does not split, or a recognized kind's
    /// payload violates its grammar.
    pub fn decode(data: &[u8]) -> (r: Result<Object, StoreError>)
        ensures
            match r {
                Ok(o) => {
                    &&& o.wf()
                    &&& inflate_of(data@) is Some
                    &&& spec_parse_envelope(inflate_of(data@)->Some_0) == Some(
                        (o.spec_kind_bytes(), o.spec_payload()),
                    )
                },
                Err(e) => {
                    &&& e == StoreError::Malformed
                    &&& match inflate_of(data@) {
                        Some(env) => !decode_ok(env),
                        None => true,
                    }
                },
            },
    {
        let contents = match zlib_decompress(data) {
            Some(v) => v,
            None => {
                return Err(StoreError::Malformed);
            },
        };
        let n: usize = contents.len();
        let z = match find_byte(contents.as_slice(), 0) {
            Some(i) => i,
            None => {
                return Err(StoreError::Malformed);
            },
        };
        proof {
            lemma_find_byte(contents@, 0);
        }
        let header = slice_subrange(contents.as_slice(), 0, z);
        let payload = slice_subrange(contents.as_slice(), z + 1, n);
        proof {
            assert(header@ =~= contents@.take(z as int));
            assert(payload@ =~= contents@.skip(z + 1));
        }
        if !utf8_check(header) {
            return Err(StoreError::Malformed);
        }
        let sp = match find_byte(header, 32) {
            Some(i) => i,
            None => {
                return Err(StoreError::Malformed);
            },
        };
        proof {
            lemma_find_byte(header@, 32);
        }
        let kind_part = slice_subrange(header, 0, sp);
        let len_part = slice_subrange(header, sp + 1, header.len());
        proof {
            assert(kind_part@ =~= header@.take(sp as int));
            assert(len_part@ =~= header@.skip(sp + 1));
        }
        let declared = match crate::numbers::parse_plus(len_part, 10, usize::MAX as u64) {
            Some(v) => v as usize,
            None => {
                return Err(StoreError::Malformed);
            },
        };
        if declared != payload.len() {
            return Err(StoreError::Malformed);
        }
        if bytes_eq(kind_part, blob_kind_slice()) {
            Ok(Object::Blob(slice_to_vec(payload)))
        } else if bytes_eq(kind_part, commit_kind_slice()) {
            match Commit::from_bytes(payload) {
                Ok(c) => Ok(Object::Commit(c)),
                Err(e) => Err(e),
            }
        } else if bytes_eq(kind_part, tree_kind_slice()) {
            match TreeData::from_bytes(payload) {
                Ok(t) => Ok(Object::Tree(t)),
                Err(e) => Err(e),
            }
        } else {
            proof {
                lemma_valid_utf8_split_after_ascii(header@, sp as int);
                assert(header@.take(sp as int) =~= kind_part@);
                assert(!kind_part@.contains(32u8)) by {
                    if kind_part@.contains(32u8) {
                        let k = choose|k: int|
                            0 <= k < kind_part@.len() && kind_part@[k] == 32u8;
                        assert(header@[k] == 32);
                    }
                }
                assert(!kind_part@.contains(0u8)) by {
                    if kind_part@.contains(0u8) {
                        let k = choose|k: int| 0 <= k < kind_part@.len() && kind_part@[k] == 0u8;
                        assert(contents@[k] == 0);
                    }
                }
            }
            let kind = string_from_utf8(slice_to_vec(kind_part));
            Ok(Object::Unknown { kind, data: slice_to_vec(payload) })
        }
    }
}

} // verus!
