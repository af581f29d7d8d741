//! Rendering and parsing of the ASCII integers that appear in object
//! headers, tree entries, and commit records: decimal lengths and
//! timestamps, octal modes, hexadecimal digests, and the signed,
//! zero-padded timezone field.

use vstd::arithmetic::div_mod::{
    lemma_div_is_ordered_by_denominator, lemma_fundamental_div_mod, lemma_mod_bound,
};
use vstd::prelude::*;

verus! {

/// The ASCII byte for digit value `d` (lower case above nine).
pub open spec fn digit_byte(d: nat) -> u8 {
    if d < 10 {
        (48 + d) as u8
    } else {
        (87 + d) as u8
    }
}

/// The minimal digit string of `n` in `base`; empty when `n` is zero.
pub open spec fn spec_digits(n: nat, base: nat) -> Seq<u8>
    decreases n,
    when base >= 2
{
    if n == 0 {
        Seq::empty()
    } else {
        proof {
            assert(n / base < n) by (nonlinear_arith)
                requires
                    n > 0 && base >= 2,
            ;
        }
        spec_digits(n / base, base).push(digit_byte(n % base))
    }
}

/// The rendering of `n` in `base`: its minimal digit string, or `0`.
pub open spec fn spec_render(n: nat, base: nat) -> Seq<u8> {
    if n == 0 {
        seq![48u8]
    } else {
        spec_digits(n, base)
    }
}

/// Whether `b` is a digit of `base` (bases up to ten).
pub open spec fn is_digit(b: u8, base: nat) -> bool {
    48 <= b < 48 + base
}

/// The value of digit byte `b`.
pub open spec fn digit_val(b: u8) -> nat {
    (b - 48) as nat
}

/// Whether every byte of `s` is a digit of `base`.
pub open spec fn all_digits(s: Seq<u8>, base: nat) -> bool {
    forall|i: int| 0 <= i < s.len() ==> is_digit(s[i], base)
}

/// The value of the digit string `s` in `base` (most significant first).
pub open spec fn digits_value(s: Seq<u8>, base: nat) -> nat
    decreases s.len(),
{
    if s.len() == 0 {
        0
    } else {
        digits_value(s.drop_last(), base) * base + digit_val(s.last())
    }
}

/// What `n`-in-`base` parses to: the value, if `s` is one or more digits.
pub open spec fn spec_parse_uint(s: Seq<u8>, base: nat) -> Option<nat> {
    if s.len() > 0 && all_digits(s, base) {
        Some(digits_value(s, base))
    } else {
        None
    }
}

/// An unsigned integer with an optional leading plus sign, the grammar the
/// standard library's unsigned parsers accept.
pub open spec fn spec_parse_plus(s: Seq<u8>, base: nat) -> Option<nat> {
    if s.len() > 0 && s[0] == 43 {
        spec_parse_uint(s.drop_first(), base)
    } else {
        spec_parse_uint(s, base)
    }
}

/// A signed decimal integer in the 32-bit range, the grammar the standard
/// library's `i32` parser accepts.
pub open spec fn spec_parse_i32(s: Seq<u8>) -> Option<int> {
    if s.len() > 0 && s[0] == 43 {
        match spec_parse_uint(s.drop_first(), 10) {
            Some(n) => if n <= 0x7fff_ffff {
                Some(n as int)
            } else {
                None
            },
            None => None,
        }
    } else if s.len() > 0 && s[0] == 45 {
        match spec_parse_uint(s.drop_first(), 10) {
            Some(n) => if n <= 0x8000_0000 {
                Some(-(n as int))
            } else {
                None
            },
            None => None,
        }
    } else {
        match spec_parse_uint(s, 10) {
            Some(n) => if n <= 0x7fff_ffff {
                Some(n as int)
            } else {
                None
            },
            None => None,
        }
    }
}

/// `s` left-padded with zero digits to at least four bytes, the width of
/// an HHMM offset.
pub open spec fn pad4(s: Seq<u8>) -> Seq<u8> {
    if s.len() >= 4 {
        s
    } else if s.len() == 3 {
        seq![48u8] + s
    } else if s.len() == 2 {
        seq![48u8, 48u8] + s
    } else if s.len() == 1 {
        seq![48u8, 48u8, 48u8] + s
    } else {
        seq![48u8, 48u8, 48u8, 48u8]
    }
}

/// The timezone field of a person stamp, in signed HHMM form: an explicit
/// sign, then the absolute offset zero-padded to at least four digits.
pub open spec fn spec_render_tz(tz: int) -> Seq<u8> {
    if tz < 0 {
        seq![45u8] + pad4(spec_render((-tz) as nat, 10))
    } else {
        seq![43u8] + pad4(spec_render(tz as nat, 10))
    }
}

/// The lower-case hexadecimal rendering of a byte string, two digits per
/// byte.
pub open spec fn spec_hex(bytes: Seq<u8>) -> Seq<u8>
    decreases bytes.len(),
{
    if bytes.len() == 0 {
        Seq::empty()
    } else {
        seq![
            digit_byte((bytes[0] >> 4) as nat),
            digit_byte((bytes[0] & 15) as nat),
        ] + spec_hex(bytes.drop_first())
    }
}

/// Whether `b` is an ASCII hexadecimal digit, either case.
pub open spec fn is_hex_digit(b: u8) -> bool {
    (48 <= b <= 57) || (97 <= b <= 102) || (65 <= b <= 70)
}

/// Forty hexadecimal characters: the textual form of an object identifier.
pub open spec fn is_hex40(v: Seq<u8>) -> bool {
    v.len() == 40 && (forall|i: int| 0 <= i < 40 ==> is_hex_digit(#[trigger] v[i]))
}

/// Whether `b` is forty hexadecimal characters.
pub fn check_hex40(b: &[u8]) -> (r: bool)
    ensures
        r == is_hex40(b@),
{
    if b.len() != 40 {
        return false;
    }
    let mut i: usize = 0;
    while i < 40
        invariant
            b@.len() == 40,
            i <= 40,
            forall|j: int| 0 <= j < i ==> is_hex_digit(#[trigger] b@[j]),
        decreases 40 - i,
    {
        let c: u8 = *vstd::slice::slice_index_get(b, i);
        if !((48 <= c && c <= 57) || (97 <= c && c <= 102) || (65 <= c && c <= 70)) {
            proof {
                assert(!is_hex_digit(b@[i as int]));
            }
            return false;
        }
        i = i + 1;
    }
    true
}

/// Digit strings hold only digit bytes, which are printable ASCII and in
/// particular never NUL, space, or newline.
pub proof fn lemma_render_digits(n: nat, base: nat)
    requires
        2 <= base <= 10,
    ensures
        all_digits(spec_render(n, base), base),
        spec_render(n, base).len() >= 1,
    decreases n,
{
    if n > 0 {
        lemma_digits_digits(n, base);
    }
}

/// Every byte of the minimal digit string is a digit of the base.
proof fn lemma_digits_digits(n: nat, base: nat)
    requires
        2 <= base <= 10,
    ensures
        all_digits(spec_digits(n, base), base),
    decreases n,
{
    if n > 0 {
        lemma_mod_bound(n as int, base as int);
        lemma_digits_digits(n / base, base);
        assert forall|i: int| 0 <= i < spec_digits(n, base).len() implies is_digit(
            spec_digits(n, base)[i],
            base,
        ) by {
            if i < spec_digits(n / base, base).len() {
                assert(spec_digits(n, base)[i] == spec_digits(n / base, base)[i]);
            }
        }
    }
}

/// Parsing inverts rendering: the digit string of `n` evaluates to `n`.
pub proof fn lemma_parse_render(n: nat, base: nat)
    requires
        2 <= base <= 10,
    ensures
        spec_parse_uint(spec_render(n, base), base) == Some(n),
{
    lemma_render_digits(n, base);
    if n == 0 {
        let z = seq![48u8];
        assert(z.drop_last() =~= Seq::<u8>::empty());
        assert(digits_value(z, base) == digits_value(z.drop_last(), base) * base + digit_val(48));
        assert(digits_value(z.drop_last(), base) * base == 0) by (nonlinear_arith)
            requires
                digits_value(z.drop_last(), base) == 0,
        ;
    } else {
        lemma_digits_value(n, base);
    }
}

/// The value of the minimal digit string of `n` is `n`.
proof fn lemma_digits_value(n: nat, base: nat)
    requires
        2 <= base <= 10,
    ensures
        digits_value(spec_digits(n, base), base) == n,
    decreases n,
{
    if n > 0 {
        lemma_fundamental_div_mod(n as int, base as int);
        lemma_mod_bound(n as int, base as int);
        assert(n / base < n) by (nonlinear_arith)
            requires
                n > 0 && base >= 2,
        ;
        lemma_digits_value(n / base, base);
        let s = spec_digits(n, base);
        assert(s == spec_digits(n / base, base).push(digit_byte(n % base)));
        assert(s.len() == spec_digits(n / base, base).len() + 1);
        assert(s.drop_last() =~= spec_digits(n / base, base));
        assert(s.last() == digit_byte(n % base));
        assert(digit_val(digit_byte(n % base)) == n % base);
        assert(digits_value(s, base) == digits_value(s.drop_last(), base) * base + digit_val(
            s.last(),
        ));
        assert(digits_value(s, base) == (n / base) * base + n % base);
        assert((n / base) * base + n % base == n) by (nonlinear_arith)
            requires
                base >= 2 && n == base * (n / base) + n % base,
        ;
    }
}

/// Zero digits in front of a digit string do not change its value.
pub proof fn lemma_zeros_prefix(z: Seq<u8>, s: Seq<u8>, base: nat)
    requires
        base >= 2,
        forall|i: int| 0 <= i < z.len() ==> z[i] == 48,
    ensures
        digits_value(z + s, base) == digits_value(s, base),
    decreases s.len(),
{
    if s.len() == 0 {
        assert(z + s =~= z);
        lemma_zeros_value(z, base);
    } else {
        assert((z + s).drop_last() =~= z + s.drop_last());
        lemma_zeros_prefix(z, s.drop_last(), base);
        assert((z + s).last() == s.last());
    }
}

/// A string of zero digits has value zero.
proof fn lemma_zeros_value(z: Seq<u8>, base: nat)
    requires
        forall|i: int| 0 <= i < z.len() ==> z[i] == 48,
    ensures
        digits_value(z, base) == 0,
    decreases z.len(),
{
    if z.len() > 0 {
        assert(forall|i: int| 0 <= i < z.drop_last().len() ==> z.drop_last()[i] == 48);
        lemma_zeros_value(z.drop_last(), base);
        assert(digit_val(z.last()) == 0);
        assert(digits_value(z, base) == 0 * base + 0) by (nonlinear_arith)
            requires
                digits_value(z.drop_last(), base) == 0 && digit_val(z.last()) == 0
                    && digits_value(z, base) == digits_value(z.drop_last(), base) * base
                    + digit_val(z.last()),
        ;
    }
}

/// A longer digit string never has a smaller value.
pub proof fn lemma_digits_value_prefix(s: Seq<u8>, i: int, base: nat)
    requires
        2 <= base <= 10,
        0 <= i <= s.len(),
        all_digits(s, base),
    ensures
        digits_value(s.take(i), base) <= digits_value(s, base),
    decreases s.len() - i,
{
    if i < s.len() {
        lemma_digits_value_prefix(s, i + 1, base);
        let t = s.take(i + 1);
        assert(t.drop_last() =~= s.take(i));
        assert(digits_value(s.take(i), base) * base >= digits_value(s.take(i), base)) by (nonlinear_arith)
            requires
                base >= 1,
        ;
    } else {
        assert(s.take(i) =~= s);
    }
}

/// A hexadecimal rendering is twice as long as its input and holds only
/// hexadecimal digits.
pub proof fn lemma_hex_digits(bytes: Seq<u8>)
    ensures
        spec_hex(bytes).len() == 2 * bytes.len(),
        forall|i: int| 0 <= i < spec_hex(bytes).len() ==> is_hex_digit(#[trigger] spec_hex(bytes)[i]),
    decreases bytes.len(),
{
    if bytes.len() > 0 {
        lemma_hex_digits(bytes.drop_first());
        let pair = seq![
            digit_byte((bytes[0] >> 4) as nat),
            digit_byte((bytes[0] & 15) as nat),
        ];
        let b0 = bytes[0];
        assert(b0 >> 4 < 16 && b0 & 15 < 16) by (bit_vector);
        assert forall|i: int| 0 <= i < spec_hex(bytes).len() implies is_hex_digit(
            #[trigger] spec_hex(bytes)[i],
        ) by {
            if i < 2 {
                assert(spec_hex(bytes)[i] == pair[i]);
            } else {
                assert(spec_hex(bytes)[i] == spec_hex(bytes.drop_first())[i - 2]);
            }
        }
    }
}

/// Renders `n` in `base` as minimal ASCII digits.
pub fn render_u64(n: u64, base: u64) -> (r: Vec<u8>)
    requires
        2 <= base <= 10,
    ensures
        r@ == spec_render(n as nat, base as nat),
{
    if n == 0 {
        let mut out: Vec<u8> = Vec::new();
        out.push(48);
        proof {
            assert(out@ =~= spec_render(0, base as nat));
        }
        return out;
    }
    let mut rev: Vec<u8> = Vec::new();
    let mut x: u64 = n;
    while x > 0
        invariant
            2 <= base <= 10,
            spec_digits(n as nat, base as nat) =~= spec_digits(x as nat, base as nat)
                + rev@.reverse(),
        decreases x,
    {
        let d: u64 = x % base;
        proof {
            lemma_mod_bound(x as int, base as int);
            let ghost old_rev = rev@;
            let ghost oldx = x as nat;
            assert(spec_digits(oldx, base as nat) == spec_digits(oldx / (base as nat), base as nat)
                .push(digit_byte(oldx % (base as nat))));
            assert(old_rev.push(digit_byte(oldx % (base as nat))).reverse() =~= seq![
                digit_byte(oldx % (base as nat)),
            ] + old_rev.reverse());
        }
        rev.push(48 + (d as u8));
        proof {
            assert(48 + d as u8 == digit_byte((x as nat) % (base as nat)));
            assert(spec_digits(n as nat, base as nat) =~= spec_digits(
                (x as nat) / (base as nat),
                base as nat,
            ) + rev@.reverse());
        }
        x = x / base;
        proof {
            lemma_div_is_ordered_by_denominator(x as int, 1, base as int);
        }
    }
    let mut out: Vec<u8> = Vec::new();
    let mut i: usize = rev.len();
    while i > 0
        invariant
            i <= rev@.len(),
            out@ =~= rev@.reverse().take(rev@.len() - i),
        decreases i,
    {
        i = i - 1;
        let b: u8 = rev[i];
        out.push(b);
        proof {
            assert(out@ =~= rev@.reverse().take(rev@.len() - i));
        }
    }
    proof {
        assert(out@ =~= rev@.reverse());
        assert(spec_digits(n as nat, base as nat) =~= rev@.reverse());
    }
    out
}

/// Renders the timezone offset in signed HHMM form: sign, then at least
/// four digits.
pub fn render_tz(tz: i32) -> (r: Vec<u8>)
    ensures
        r@ == spec_render_tz(tz as int),
{
    let mut out: Vec<u8> = Vec::new();
    let magnitude: u64 = if tz < 0 {
        out.push(45);
        (-(tz as i64)) as u64
    } else {
        out.push(43);
        tz as u64
    };
    let digits = render_u64(magnitude, 10);
    if digits.len() == 1 {
        out.push(48);
        out.push(48);
        out.push(48);
    } else if digits.len() == 2 {
        out.push(48);
        out.push(48);
    } else if digits.len() == 3 {
        out.push(48);
    }
    let ghost pre = out@;
    let mut k: usize = 0;
    while k < digits.len()
        invariant
            k <= digits@.len(),
            out@ =~= pre + digits@.take(k as int),
        decreases digits@.len() - k,
    {
        let b: u8 = digits[k];
        out.push(b);
        k = k + 1;
        proof {
            assert(digits@.take(k as int) =~= digits@.take(k - 1).push(digits@[k - 1]));
        }
    }
    proof {
        assert(digits@.take(digits@.len() as int) =~= digits@);
        assert(out@ =~= spec_render_tz(tz as int));
    }
    out
}

/// Renders a byte string as lower-case hexadecimal, two digits per byte.
pub fn render_hex(data: &[u8]) -> (r: Vec<u8>)
    ensures
        r@ == spec_hex(data@),
{
    let n: usize = data.len();
    let mut out: Vec<u8> = Vec::new();
    let mut i: usize = 0;
    proof {
        assert(data@.skip(0) =~= data@);
    }
    while i < n
        invariant
            n == data@.len(),
            i <= n,
            spec_hex(data@) =~= out@ + spec_hex(data@.skip(i as int)),
            out@.len() == 2 * i,
        decreases n - i,
    {
        let b: u8 = *vstd::slice::slice_index_get(data, i);
        let hi: u8 = b >> 4;
        let lo: u8 = b & 15;
        proof {
            assert(b >> 4 < 16 && b & 15 < 16) by (bit_vector);
        }
        out.push(hex_digit_byte(hi));
        out.push(hex_digit_byte(lo));
        proof {
            assert(data@.skip(i as int).drop_first() =~= data@.skip(i + 1));
            assert(data@.skip(i as int)[0] == data@[i as int]);
        }
        i = i + 1;
    }
    proof {
        assert(data@.skip(n as int) =~= Seq::<u8>::empty());
        assert(out@ =~= spec_hex(data@));
    }
    out
}

/// The ASCII byte of one hexadecimal digit value.
fn hex_digit_byte(d: u8) -> (r: u8)
    requires
        d < 16,
    ensures
        r == digit_byte(d as nat),
{
    if d < 10 {
        48 + d
    } else {
        87 + d
    }
}

/// Parses one-or-more digits in `base`, worth at most `limit`.
pub fn parse_uint(s: &[u8], base: u64, limit: u64) -> (r: Option<u64>)
    requires
        2 <= base <= 10,
    ensures
        match r {
            Some(v) => spec_parse_uint(s@, base as nat) == Some(v as nat) && v <= limit,
            None => match spec_parse_uint(s@, base as nat) {
                Some(n) => n > limit,
                None => true,
            },
        },
{
    let n: usize = s.len();
    if n == 0 {
        return None;
    }
    let mut acc: u64 = 0;
    let mut i: usize = 0;
    while i < n
        invariant
            2 <= base <= 10,
            n == s@.len(),
            0 < n,
            i <= n,
            all_digits(s@.take(i as int), base as nat),
            acc as nat == digits_value(s@.take(i as int), base as nat),
        decreases n - i,
    {
        let b: u8 = *vstd::slice::slice_index_get(s, i);
        if !(48 <= b && b < 48 + (base as u8)) {
            proof {
                assert(!is_digit(s@[i as int], base as nat));
            }
            return None;
        }
        let d: u64 = (b - 48) as u64;
        let next = match acc.checked_mul(base) {
            Some(m) => m.checked_add(d),
            None => None,
        };
        match next {
            Some(v) => {
                acc = v;
                i = i + 1;
                proof {
                    assert(s@.take(i as int).drop_last() =~= s@.take(i - 1));
                    assert(s@.take(i as int).last() == s@[i - 1]);
                }
            },
            None => {
                proof {
                    lemma_overflow_means_big(s@, i as int, acc as nat, d as nat, base as nat, limit as nat);
                }
                return None;
            },
        }
    }
    proof {
        assert(s@.take(n as int) =~= s@);
    }
    if acc <= limit {
        Some(acc)
    } else {
        None
    }
}

/// If the accumulated prefix already exceeds sixty-four bits, the whole
/// string either fails to parse or is worth more than any limit.
proof fn lemma_overflow_means_big(s: Seq<u8>, i: int, acc: nat, d: nat, base: nat, limit: nat)
    requires
        2 <= base <= 10,
        0 <= i < s.len(),
        all_digits(s.take(i), base),
        acc == digits_value(s.take(i), base),
        is_digit(s[i], base),
        d == digit_val(s[i]),
        acc * base + d > 0xffff_ffff_ffff_ffff,
        limit <= 0xffff_ffff_ffff_ffff,
    ensures
        match spec_parse_uint(s, base) {
            Some(n) => n > limit,
            None => true,
        },
{
    if all_digits(s, base) {
        assert(s.take(i + 1).drop_last() =~= s.take(i));
        assert(s.take(i + 1).last() == s[i]);
        assert(digits_value(s.take(i + 1), base) == acc * base + d);
        lemma_digits_value_prefix(s, i + 1, base);
    }
}

/// Parses an unsigned integer with an optional leading plus sign.
pub fn parse_plus(s: &[u8], base: u64, limit: u64) -> (r: Option<u64>)
    requires
        2 <= base <= 10,
    ensures
        match r {
            Some(v) => spec_parse_plus(s@, base as nat) == Some(v as nat) && v <= limit,
            None => match spec_parse_plus(s@, base as nat) {
                Some(n) => n > limit,
                None => true,
            },
        },
{
    if s.len() > 0 && *vstd::slice::slice_index_get(s, 0) == 43 {
        let rest = vstd::slice::slice_subrange(s, 1, s.len());
        proof {
            assert(rest@ =~= s@.drop_first());
        }
        parse_uint(rest, base, limit)
    } else {
        parse_uint(s, base, limit)
    }
}

/// Parses a signed 32-bit decimal integer, the timezone field's grammar.
pub fn parse_i32(s: &[u8]) -> (r: Option<i32>)
    ensures
        match r {
            Some(v) => spec_parse_i32(s@) == Some(v as int),
            None => spec_parse_i32(s@) is None,
        },
{
    if s.len() == 0 {
        return None;
    }
    let first: u8 = *vstd::slice::slice_index_get(s, 0);
    if first == 45 {
        let rest = vstd::slice::slice_subrange(s, 1, s.len());
        proof {
            assert(rest@ =~= s@.drop_first());
        }
        match parse_uint(rest, 10, 0x8000_0000) {
            Some(v) => Some((-(v as i64)) as i32),
            None => None,
        }
    } else if first == 43 {
        let rest = vstd::slice::slice_subrange(s, 1, s.len());
        proof {
            assert(rest@ =~= s@.drop_first());
        }
        match parse_uint(rest, 10, 0x7fff_ffff) {
            Some(v) => Some(v as i32),
            None => None,
        }
    } else {
        match parse_uint(s, 10, 0x7fff_ffff) {
            Some(v) => Some(v as i32),
            None => None,
        }
    }
}

/// Parsing inverts the timezone rendering on every 32-bit offset.
pub proof fn lemma_parse_render_tz(tz: int)
    requires
        -0x8000_0000 <= tz <= 0x7fff_ffff,
    ensures
        spec_parse_i32(spec_render_tz(tz)) == Some(tz),
{
    let mag: nat = if tz < 0 {
        (-tz) as nat
    } else {
        tz as nat
    };
    let digits = spec_render(mag, 10);
    lemma_render_digits(mag, 10);
    lemma_parse_render(mag, 10);
    let padded = pad4(digits);
    let z = padded.subrange(0, padded.len() - digits.len());
    assert(padded =~= z + digits);
    lemma_zeros_prefix(z, digits, 10);
    assert(all_digits(padded, 10));
    assert(digits_value(padded, 10) == mag);
    let whole = spec_render_tz(tz);
    assert(whole.drop_first() =~= padded);
}

} // verus!
