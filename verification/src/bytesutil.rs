//! Byte-level helpers shared by the codec and the parsers: searching,
//! comparison, ASCII case folding and trimming, and the UTF-8 validity
//! checks that the object grammars demand.

use vstd::prelude::*;
use vstd::slice::{slice_index_get, slice_subrange, slice_to_vec};
use vstd::string::StringSliceAdditionalSpecFns;
use vstd::utf8::{encode_utf8, valid_utf8};

verus! {

/// The first position of `t` in `s`, if any.
pub open spec fn spec_find_byte(s: Seq<u8>, t: u8) -> Option<int>
    decreases s.len(),
{
    if s.len() == 0 {
        None
    } else if s[0] == t {
        Some(0int)
    } else {
        match spec_find_byte(s.drop_first(), t) {
            Some(i) => Some(i + 1),
            None => None,
        }
    }
}

/// `spec_find_byte` returns the first occurrence: the index holds `t` and
/// nothing before it does; `None` means `t` is absent.
pub proof fn lemma_find_byte(s: Seq<u8>, t: u8)
    ensures
        match spec_find_byte(s, t) {
            Some(i) => 0 <= i < s.len() && s[i] == t && (forall|j: int| 0 <= j < i ==> s[j] != t),
            None => forall|j: int| 0 <= j < s.len() ==> s[j] != t,
        },
    decreases s.len(),
{
    if s.len() > 0 && s[0] != t {
        lemma_find_byte(s.drop_first(), t);
        assert(forall|j: int| 0 < j < s.len() ==> s[j] == s.drop_first()[j - 1]);
    }
}

/// First index of `t` in `data`, scanning from the front.
pub fn find_byte(data: &[u8], t: u8) -> (r: Option<usize>)
    ensures
        match r {
            Some(i) => spec_find_byte(data@, t) == Some(i as int),
            None => spec_find_byte(data@, t) is None,
        },
{
    proof {
        lemma_find_byte(data@, t);
    }
    let n: usize = data.len();
    let mut i: usize = 0;
    while i < n
        invariant
            n == data@.len(),
            0 <= i <= n,
            forall|j: int| 0 <= j < i ==> data@[j] != t,
        decreases n - i,
    {
        if *slice_index_get(data, i) == t {
            proof {
                lemma_find_byte_exact(data@, t, i as int);
            }
            return Some(i);
        }
        i = i + 1;
    }
    None
}

/// If `s[i]` is the first occurrence of `t`, `spec_find_byte` names it.
pub proof fn lemma_find_byte_exact(s: Seq<u8>, t: u8, i: int)
    requires
        0 <= i < s.len(),
        s[i] == t,
        forall|j: int| 0 <= j < i ==> s[j] != t,
    ensures
        spec_find_byte(s, t) == Some(i),
    decreases s.len(),
{
    if i > 0 {
        assert(forall|j: int| 0 <= j < i - 1 ==> s.drop_first()[j] != t);
        lemma_find_byte_exact(s.drop_first(), t, i - 1);
    }
}

/// Exact equality of two byte slices.
pub fn bytes_eq(a: &[u8], b: &[u8]) -> (r: bool)
    ensures
        r == (a@ == b@),
{
    let n: usize = a.len();
    if n != b.len() {
        return false;
    }
    let mut i: usize = 0;
    while i < n
        invariant
            n == a@.len() == b@.len(),
            0 <= i <= n,
            forall|j: int| 0 <= j < i ==> a@[j] == b@[j],
        decreases n - i,
    {
        if *slice_index_get(a, i) != *slice_index_get(b, i) {
            return false;
        }
        i = i + 1;
    }
    proof {
        assert(a@ =~= b@);
    }
    true
}

/// ASCII lower-casing of one byte; other bytes are untouched.
pub open spec fn spec_ascii_lower(b: u8) -> u8 {
    if 65 <= b <= 90 {
        (b + 32) as u8
    } else {
        b
    }
}

/// Equality of two byte sequences up to ASCII case.
pub open spec fn eq_icase(a: Seq<u8>, b: Seq<u8>) -> bool {
    a.len() == b.len() && (forall|i: int|
        0 <= i < a.len() ==> spec_ascii_lower(a[i]) == spec_ascii_lower(b[i]))
}

/// ASCII lower-casing of one byte.
pub fn ascii_lower(b: u8) -> (r: u8)
    ensures
        r == spec_ascii_lower(b),
{
    if 65 <= b && b <= 90 {
        b + 32
    } else {
        b
    }
}

/// Case-insensitive (ASCII) equality of two byte slices.
pub fn bytes_eq_icase(a: &[u8], b: &[u8]) -> (r: bool)
    ensures
        r == eq_icase(a@, b@),
{
    let n: usize = a.len();
    if n != b.len() {
        return false;
    }
    let mut i: usize = 0;
    while i < n
        invariant
            n == a@.len() == b@.len(),
            0 <= i <= n,
            forall|j: int| 0 <= j < i ==> spec_ascii_lower(a@[j]) == spec_ascii_lower(b@[j]),
        decreases n - i,
    {
        if ascii_lower(*slice_index_get(a, i)) != ascii_lower(*slice_index_get(b, i)) {
            return false;
        }
        i = i + 1;
    }
    true
}

/// ASCII whitespace, as trimming understands it: the six whitespace
/// characters of the ASCII range. Multi-byte whitespace is not trimmed.
pub open spec fn is_ascii_space(b: u8) -> bool {
    b == 32 || (9 <= b <= 13)
}

/// `s` with leading and trailing ASCII whitespace removed.
pub open spec fn spec_trim(s: Seq<u8>) -> Seq<u8>
    decreases s.len(),
{
    if s.len() == 0 {
        s
    } else if is_ascii_space(s[0]) {
        spec_trim(s.drop_first())
    } else if is_ascii_space(s.last()) {
        spec_trim(s.drop_last())
    } else {
        s
    }
}

/// Copies `data` with leading and trailing ASCII whitespace removed.
pub fn trim_ascii(data: &[u8]) -> (r: Vec<u8>)
    ensures
        r@ == spec_trim(data@),
{
    let mut lo: usize = 0;
    let mut hi: usize = data.len();
    proof {
        assert(data@.subrange(0, data@.len() as int) =~= data@);
    }
    while lo < hi && is_space(*slice_index_get(data, lo))
        invariant
            0 <= lo <= hi <= data@.len(),
            spec_trim(data@) == spec_trim(data@.subrange(lo as int, hi as int)),
            hi == data@.len(),
        decreases hi - lo,
    {
        proof {
            assert(data@.subrange(lo as int, hi as int).drop_first() =~= data@.subrange(
                lo + 1,
                hi as int,
            ));
        }
        lo = lo + 1;
    }
    while lo < hi && is_space(*slice_index_get(data, hi - 1))
        invariant
            0 <= lo <= hi <= data@.len(),
            spec_trim(data@) == spec_trim(data@.subrange(lo as int, hi as int)),
            lo < hi ==> !is_ascii_space(data@[lo as int]),
        decreases hi - lo,
    {
        proof {
            assert(data@.subrange(lo as int, hi as int).drop_last() =~= data@.subrange(
                lo as int,
                hi - 1,
            ));
        }
        hi = hi - 1;
    }
    let out = slice_subrange(data, lo, hi);
    proof {
        if lo < hi {
            assert(spec_trim(data@.subrange(lo as int, hi as int)) == data@.subrange(
                lo as int,
                hi as int,
            ));
        } else {
            assert(data@.subrange(lo as int, hi as int) =~= Seq::<u8>::empty());
        }
    }
    slice_to_vec(out)
}

/// ASCII whitespace test on one byte.
pub fn is_space(b: u8) -> (r: bool)
    ensures
        r == is_ascii_space(b),
{
    b == 32 || (9 <= b && b <= 13)
}

/// Trimming leaves a sequence with no whitespace at either edge alone.
pub proof fn lemma_trim_clean(s: Seq<u8>)
    requires
        s.len() == 0 || (!is_ascii_space(s[0]) && !is_ascii_space(s.last())),
    ensures
        spec_trim(s) == s,
{
}

/// Trimming drops one leading space.
pub proof fn lemma_trim_drop_leading(s: Seq<u8>)
    ensures
        spec_trim(seq![32u8] + s) == spec_trim(s),
{
    assert((seq![32u8] + s)[0] == 32);
    assert((seq![32u8] + s).drop_first() =~= s);
}

/// Every all-ASCII byte sequence is valid UTF-8.
pub proof fn lemma_ascii_valid_utf8(s: Seq<u8>)
    requires
        forall|i: int| 0 <= i < s.len() ==> s[i] < 128,
    ensures
        valid_utf8(s),
    decreases s.len(),
{
    if s.len() > 0 {
        lemma_ascii_valid_utf8(s.skip(1));
        assert(vstd::utf8::valid_first_scalar(s));
        assert(vstd::utf8::pop_first_scalar(s) =~= s.skip(1));
    }
}

/// Splitting well-formed UTF-8 just past an ASCII byte leaves both sides
/// well formed.
pub proof fn lemma_valid_utf8_split_after_ascii(s: Seq<u8>, i: int)
    requires
        valid_utf8(s),
        0 <= i < s.len(),
        s[i] < 128,
    ensures
        valid_utf8(s.take(i)),
        valid_utf8(s.skip(i + 1)),
{
    vstd::utf8::is_char_boundary_iff_not_is_continuation_byte(s, i);
    vstd::utf8::valid_utf8_split(s, i);
    assert(s.take(i) =~= s.subrange(0, i));
    let rest = s.subrange(i, s.len() as int);
    assert(rest.len() > 0 && rest[0] == s[i]);
    assert(vstd::utf8::is_leading_byte_width_1(rest[0]));
    assert(vstd::utf8::valid_first_scalar(rest));
    assert(vstd::utf8::length_of_first_scalar(rest) == 1);
    assert(vstd::utf8::pop_first_scalar(rest) =~= s.skip(i + 1));
    assert(valid_utf8(vstd::utf8::pop_first_scalar(rest)));
}

/// Appends a string's bytes to a byte buffer.
pub fn push_str_bytes(buf: &mut Vec<u8>, s: &str)
    ensures
        final(buf)@ == old(buf)@ + s.spec_bytes(),
{
    let mut tmp = slice_to_vec(s.as_bytes());
    buf.append(&mut tmp);
}

/// Relies on `core::str::from_utf8`: it accepts a byte slice exactly when
/// the bytes are well-formed UTF-8.
#[verifier::external_body]
pub(crate) fn utf8_check(data: &[u8]) -> (r: bool)
    ensures
        r == valid_utf8(data@),
{
    core::str::from_utf8(data).is_ok()
}

/// Relies on `alloc::string::String::from_utf8`: on well-formed UTF-8 input
/// it succeeds and the new string holds exactly the given bytes.
#[verifier::external_body]
pub(crate) fn string_from_utf8(data: Vec<u8>) -> (r: String)
    requires
        valid_utf8(data@),
    ensures
        encode_utf8(r@) == data@,
{
    String::from_utf8(data).unwrap()
}

} // verus!
