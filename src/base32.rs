//! Fixed-width Crockford base-32 codec for 128-bit values.
//!
//! A value is written as 26 symbols, most significant first; each symbol
//! carries 5 bits, so the first one carries only the top 3 bits of the value
//! and never exceeds 7.
use vstd::arithmetic::div_mod::{
    lemma_basic_div, lemma_div_denominator, lemma_fundamental_div_mod, lemma_mod_bound,
};
use vstd::prelude::*;

use crate::text::push_char;
use vstd::utf8::{encode_scalar, encode_utf8, is_ascii_chars, is_ascii_chars_encode_utf8};

verus! {

/// Number of symbols in an encoded value.
pub const ENCODED_LEN: usize = 26;

/// The Crockford alphabet: the symbol for each 5-bit code.
pub const CROCKFORD: [char; 32] = [
    '0', '1', '2', '3', '4', '5', '6', '7', '8', '9', 'a', 'b', 'c', 'd', 'e', 'f',
    'g', 'h', 'j', 'k', 'm', 'n', 'p', 'q', 'r', 's', 't', 'v', 'w', 'x', 'y', 'z',
];

/// Why a text is not the encoding of a 128-bit value.
#[derive(Debug, Clone, Copy, PartialEq, Eq)]
pub enum EncodingReason {
    /// The text is not 26 bytes long; `len` is its length in bytes.
    WrongLength { len: usize },
    /// The byte at `position`, shown as `character`, is not a symbol of the
    /// alphabet.
    InvalidCharacter { character: char, position: usize },
    /// The first symbol exceeds 7: the value would not fit in 128 bits.
    Overflow,
}

#[non_exhaustive]
#[derive(Debug, Clone, PartialEq, Eq)]
pub enum Error {
    /// The text is not a valid encoding.
    InvalidEncoding { reason: EncodingReason },
}

/// 32 to the power `n`.
pub open spec fn pow32(n: nat) -> nat
    decreases n,
{
    if n == 0 {
        1
    } else {
        32 * pow32((n - 1) as nat)
    }
}

/// The code of a symbol, or `None` for a character outside the alphabet.
pub open spec fn code_of(c: char) -> Option<u8> {
    if '0' <= c <= '9' {
        Some((c as u32 - '0' as u32) as u8)
    } else if 'a' <= c <= 'h' {
        Some((c as u32 - 'a' as u32 + 10) as u8)
    } else if c == 'j' || c == 'k' {
        Some((c as u32 - 'j' as u32 + 18) as u8)
    } else if c == 'm' || c == 'n' {
        Some((c as u32 - 'm' as u32 + 20) as u8)
    } else if 'p' <= c <= 't' {
        Some((c as u32 - 'p' as u32 + 22) as u8)
    } else if 'v' <= c <= 'z' {
        Some((c as u32 - 'v' as u32 + 27) as u8)
    } else {
        None
    }
}

pub open spec fn is_symbol(c: char) -> bool {
    code_of(c) is Some
}

/// Every character of `s` is a symbol of the alphabet.
pub open spec fn all_symbols(s: Seq<char>) -> bool {
    forall|i: int| 0 <= i < s.len() ==> is_symbol(#[trigger] s[i])
}

/// The code of a byte read as a character, or `None` where it is not a
/// symbol of the alphabet.
pub open spec fn byte_code(b: u8) -> Option<u8> {
    code_of(b as char)
}

/// Every byte of `b` is a symbol of the alphabet.
pub open spec fn all_symbol_bytes(b: Seq<u8>) -> bool {
    forall|i: int| 0 <= i < b.len() ==> #[trigger] byte_code(b[i]) is Some
}

/// The position of the first byte of `b` that is not a symbol (meaningful
/// when there is one).
pub open spec fn first_non_symbol_byte(b: Seq<u8>) -> int {
    choose|p: int|
        0 <= p < b.len() && byte_code(b[p]) is None && forall|j: int|
            0 <= j < p ==> #[trigger] byte_code(b[j]) is Some
}

/// The codes of a sequence of symbol bytes.
pub open spec fn byte_codes(b: Seq<u8>) -> Seq<u8> {
    b.map_values(|x: u8| byte_code(x)->0)
}

/// Length in bytes of the UTF-8 text whose characters are `s`.
pub open spec fn byte_len(s: Seq<char>) -> nat {
    encode_utf8(s).len()
}

/// The codes of a sequence of symbols.
pub open spec fn codes(s: Seq<char>) -> Seq<u8> {
    s.map_values(|c: char| code_of(c)->0)
}

/// The number that a sequence of 5-bit codes denotes, most significant first.
pub open spec fn codes_value(d: Seq<u8>) -> nat
    decreases d.len(),
{
    if d.len() == 0 {
        0
    } else {
        (codes_value(d.drop_last()) * 32 + d.last()) as nat
    }
}

/// The 5-bit group of `v` carried by the symbol at `i` (0 is the most significant).
pub open spec fn digit(v: u128, i: int) -> int {
    (v as int / pow32((25 - i) as nat) as int) % 32
}

/// The 26 symbols that encode `v`.
pub open spec fn encoded(v: u128) -> Seq<char> {
    Seq::new(26, |i: int| CROCKFORD@[digit(v, i)])
}

/// What decoding the text `s` gives. The text is read as its UTF-8 bytes: a
/// byte that is not a symbol is reported, as a character, at its byte
/// position.
pub open spec fn decoded(s: Seq<char>) -> Result<u128, EncodingReason> {
    let b = encode_utf8(s);
    if b.len() != 26 {
        Err(EncodingReason::WrongLength { len: b.len() as usize })
    } else if !all_symbol_bytes(b) {
        Err(
            EncodingReason::InvalidCharacter {
                character: b[first_non_symbol_byte(b)] as char,
                position: first_non_symbol_byte(b) as usize,
            },
        )
    } else if byte_code(b[0])->0 > 7 {
        Err(EncodingReason::Overflow)
    } else {
        Ok(codes_value(byte_codes(b)) as u128)
    }
}

pub proof fn lemma_pow32_positive(n: nat)
    ensures
        pow32(n) >= 1,
    decreases n,
{
    if n > 0 {
        lemma_pow32_positive((n - 1) as nat);
    }
}

pub proof fn lemma_pow32_25()
    ensures
        pow32(25) == 0x2000_0000_0000_0000_0000_0000_0000_0000,
{
    reveal_with_fuel(pow32, 26);
}

/// Each symbol of the alphabet decodes to its own position, and only to it.
pub proof fn lemma_alphabet_codes()
    ensures
        forall|d: int| 0 <= d < 32 ==> code_of(#[trigger] CROCKFORD@[d]) == Some(d as u8),
        forall|c: char| #[trigger] code_of(c) is Some ==> {
            let d = code_of(c)->0;
            d < 32 && CROCKFORD@[d as int] == c
        },
{
    assert forall|d: int| 0 <= d < 32 implies code_of(#[trigger] CROCKFORD@[d]) == Some(d as u8) by {
        assert(CROCKFORD@ == seq![
            '0', '1', '2', '3', '4', '5', '6', '7', '8', '9', 'a', 'b', 'c', 'd', 'e', 'f',
            'g', 'h', 'j', 'k', 'm', 'n', 'p', 'q', 'r', 's', 't', 'v', 'w', 'x', 'y', 'z',
        ]);
    }
}

/// The code of `c`, or `None` where `c` is not a symbol of the alphabet.
pub fn symbol_code(c: char) -> (r: Option<u8>)
    ensures
        r == code_of(c),
{
    if '0' <= c && c <= '9' {
        Some((c as u32 - '0' as u32) as u8)
    } else if 'a' <= c && c <= 'h' {
        Some((c as u32 - 'a' as u32 + 10) as u8)
    } else if c == 'j' || c == 'k' {
        Some((c as u32 - 'j' as u32 + 18) as u8)
    } else if c == 'm' || c == 'n' {
        Some((c as u32 - 'm' as u32 + 20) as u8)
    } else if 'p' <= c && c <= 't' {
        Some((c as u32 - 'p' as u32 + 22) as u8)
    } else if 'v' <= c && c <= 'z' {
        Some((c as u32 - 'v' as u32 + 27) as u8)
    } else {
        None
    }
}

pub proof fn lemma_pow32_monotone(a: nat, b: nat)
    requires
        a <= b,
    ensures
        pow32(a) <= pow32(b),
    decreases b - a,
{
    if a < b {
        lemma_pow32_monotone(a, (b - 1) as nat);
    }
}

/// Where every character of `s` is a symbol, `s` is ASCII: one byte per character.
pub proof fn lemma_symbols_byte_len(s: Seq<char>)
    requires
        all_symbols(s),
    ensures
        byte_len(s) == s.len(),
        is_ascii_chars(s),
{
    assert(is_ascii_chars(s));
    is_ascii_chars_encode_utf8(s);
}

/// The first non-symbol byte of `b` is at `i` when `b[i]` is not a symbol
/// and all bytes before it are.
proof fn lemma_first_non_symbol_byte_at(b: Seq<u8>, i: int)
    requires
        0 <= i < b.len(),
        byte_code(b[i]) is None,
        forall|j: int| 0 <= j < i ==> #[trigger] byte_code(b[j]) is Some,
    ensures
        !all_symbol_bytes(b),
        first_non_symbol_byte(b) == i,
{
    let p = first_non_symbol_byte(b);
    assert(0 <= p < b.len() && byte_code(b[p]) is None && forall|j: int|
        0 <= j < p ==> #[trigger] byte_code(b[j]) is Some);
    if p < i {
        assert(byte_code(b[p]) is Some);
    } else if p > i {
        assert(byte_code(b[i]) is Some);
    }
}

/// Text whose UTF-8 bytes are all below 0x80 is ASCII.
pub proof fn lemma_ascii_from_bytes(s: Seq<char>)
    requires
        forall|i: int| 0 <= i < encode_utf8(s).len() ==> #[trigger] encode_utf8(s)[i] < 0x80,
    ensures
        is_ascii_chars(s),
    decreases s.len(),
{
    if s.len() > 0 {
        let c = s[0] as u32;
        let e = encode_scalar(c);
        let rest = s.drop_first();
        assert(encode_utf8(s) == e + encode_utf8(rest));
        assert(e.len() >= 1);
        assert(encode_utf8(s)[0] == e[0]);
        assert(encode_utf8(s)[0] < 0x80);
        if c > 0x7f {
            let x2 = ((c >> 6u32) & 0x1F) as u8;
            let x3 = ((c >> 12u32) & 0x0F) as u8;
            let x4 = ((c >> 18u32) & 0x7) as u8;
            assert((0xC0u8 | x2) >= 0x80 && (0xE0u8 | x3) >= 0x80 && (0xF0u8 | x4) >= 0x80)
                by (bit_vector);
            assert(e[0] >= 0x80);
        }
        assert(e.len() == 1);
        assert forall|i: int| 0 <= i < encode_utf8(rest).len() implies #[trigger] encode_utf8(
            rest,
        )[i] < 0x80 by {
            assert(encode_utf8(s)[i + 1] == encode_utf8(rest)[i]);
        }
        lemma_ascii_from_bytes(rest);
        assert forall|i: int| 0 <= i < s.len() implies '\0' <= #[trigger] s[i] <= '\u{7f}' by {
            if i > 0 {
                assert(s[i] == rest[i - 1]);
            } else {
                vstd::utf8::char_u32_cast(s[0], c);
                assert((c as char) <= '\u{7f}');
            }
        }
    }
}

/// For ASCII text, each byte is its character, so the byte codes are the
/// character codes.
pub proof fn lemma_ascii_byte_codes(s: Seq<char>)
    requires
        is_ascii_chars(s),
    ensures
        encode_utf8(s).len() == s.len(),
        forall|i: int| 0 <= i < s.len() ==> #[trigger] encode_utf8(s)[i] as char == s[i],
        forall|i: int| 0 <= i < s.len() ==> #[trigger] byte_code(encode_utf8(s)[i]) == code_of(s[i]),
        all_symbol_bytes(encode_utf8(s)) <==> all_symbols(s),
        all_symbols(s) ==> byte_codes(encode_utf8(s)) == codes(s),
{
    let b = encode_utf8(s);
    is_ascii_chars_encode_utf8(s);
    assert forall|i: int| 0 <= i < s.len() implies #[trigger] b[i] as char == s[i] by {
        assert(s[i] as u8 == b[i]);
        assert('\0' <= s[i] <= '\u{7f}');
    }
    assert forall|i: int| 0 <= i < s.len() implies #[trigger] byte_code(b[i]) == code_of(s[i]) by {
        assert(b[i] as char == s[i]);
    }
    if all_symbols(s) {
        assert forall|i: int| 0 <= i < b.len() implies #[trigger] byte_code(b[i]) is Some by {
            assert(byte_code(b[i]) == code_of(s[i]));
            assert(is_symbol(s[i]));
        }
        assert(byte_codes(b) =~= codes(s));
    }
    if all_symbol_bytes(b) {
        assert forall|i: int| 0 <= i < s.len() implies is_symbol(#[trigger] s[i]) by {
            assert(byte_code(b[i]) == code_of(s[i]));
            assert(byte_code(b[i]) is Some);
        }
    }
}

/// Text whose bytes are all symbols is ASCII.
pub proof fn lemma_symbol_bytes_ascii(s: Seq<char>)
    requires
        all_symbol_bytes(encode_utf8(s)),
    ensures
        is_ascii_chars(s),
        all_symbols(s),
        encode_utf8(s).len() == s.len(),
        byte_codes(encode_utf8(s)) == codes(s),
{
    let b = encode_utf8(s);
    assert forall|i: int| 0 <= i < b.len() implies #[trigger] b[i] < 0x80 by {
        assert(byte_code(b[i]) is Some);
    }
    lemma_ascii_from_bytes(s);
    lemma_ascii_byte_codes(s);
}

/// The codes of `encoded(v)` are the 5-bit groups of `v`.
pub proof fn lemma_encoded_codes(v: u128)
    ensures
        all_symbols(encoded(v)),
        codes(encoded(v)) == Seq::new(26, |i: int| digit(v, i) as u8),
        forall|i: int| 0 <= i < 26 ==> 0 <= #[trigger] digit(v, i) < 32,
{
    lemma_alphabet_codes();
    assert forall|i: int| 0 <= i < 26 implies 0 <= #[trigger] digit(v, i) < 32 by {
        lemma_pow32_positive((25 - i) as nat);
        lemma_mod_bound(v as int / pow32((25 - i) as nat) as int, 32);
    }
    assert(codes(encoded(v)) =~= Seq::new(26, |i: int| digit(v, i) as u8));
}

/// The first `k` groups of `v` denote `v` divided by `32^(26 - k)`.
proof fn lemma_digits_prefix_value(v: u128, k: nat)
    requires
        k <= 26,
    ensures
        codes_value(Seq::new(26, |i: int| digit(v, i) as u8).take(k as int)) == v as int / pow32(
            (26 - k) as nat,
        ) as int,
    decreases k,
{
    let d = Seq::new(26, |i: int| digit(v, i) as u8);
    lemma_encoded_codes(v);
    if k == 0 {
        lemma_pow32_25();
        assert(pow32(26) == 32 * pow32(25));
        lemma_basic_div(v as int, pow32(26) as int);
        assert(d.take(0) =~= Seq::<u8>::empty());
    } else {
        lemma_digits_prefix_value(v, (k - 1) as nat);
        let t = d.take(k as int);
        assert(t.drop_last() =~= d.take(k - 1));
        let p = pow32((26 - k) as nat) as int;
        lemma_pow32_positive((26 - k) as nat);
        assert(pow32((27 - k) as nat) == 32 * pow32((26 - k) as nat));
        let q = v as int / p;
        lemma_div_denominator(v as int, p, 32);
        lemma_fundamental_div_mod(q, 32);
        assert(t.last() as int == q % 32);
    }
}

/// Dividing the number that `d` denotes by `32^m` drops its last `m` codes.
proof fn lemma_codes_value_div(d: Seq<u8>, m: nat)
    requires
        m <= d.len(),
        forall|j: int| 0 <= j < d.len() ==> #[trigger] d[j] < 32,
    ensures
        codes_value(d) / pow32(m) == codes_value(d.take(d.len() - m)),
    decreases m,
{
    if m == 0 {
        assert(d.take(d.len() as int) =~= d);
        assert(pow32(0) == 1);
        assert(codes_value(d) as int / 1 == codes_value(d));
    } else {
        lemma_codes_value_div(d, (m - 1) as nat);
        lemma_pow32_positive((m - 1) as nat);
        let c = pow32((m - 1) as nat) as int;
        assert(pow32(m) == c * 32);
        lemma_div_denominator(codes_value(d) as int, c, 32);
        let t = d.take(d.len() - (m - 1));
        let a = codes_value(t.drop_last()) as int;
        let b = t.last() as int;
        assert(b == d[d.len() - m]);
        assert(codes_value(t) == a * 32 + b);
        assert((a * 32 + b) / 32 == a) by (nonlinear_arith)
            requires
                0 <= b < 32,
                a >= 0,
        ;
        assert(t.drop_last() =~= d.take(d.len() - m));
    }
}

/// A value of 26 codes whose first is at most 7 fits in 128 bits.
proof fn lemma_codes_value_fits(d: Seq<u8>)
    requires
        d.len() == 26,
        d[0] <= 7,
        forall|j: int| 0 <= j < d.len() ==> #[trigger] d[j] < 32,
    ensures
        codes_value(d) < 0x1_0000_0000_0000_0000_0000_0000_0000_0000,
{
    lemma_codes_value_div(d, 25);
    let t = d.take(1);
    assert(t.drop_last() =~= Seq::<u8>::empty());
    assert(codes_value(Seq::<u8>::empty()) == 0);
    assert(t.last() == d[0]);
    assert(codes_value(t) == d[0]);
    lemma_pow32_25();
    let p = pow32(25) as int;
    let x = codes_value(d) as int;
    lemma_fundamental_div_mod(x, p);
    lemma_mod_bound(x, p);
    assert(x < 8 * p) by (nonlinear_arith)
        requires
            x == p * (x / p) + x % p,
            x / p <= 7,
            0 <= x % p < p,
    ;
}

/// Decoding the encoding of a value gives that value back.
pub proof fn lemma_decode_encode(v: u128)
    ensures
        decoded(encoded(v)) == Ok::<u128, EncodingReason>(v),
{
    let s = encoded(v);
    lemma_encoded_codes(v);
    lemma_symbols_byte_len(s);
    lemma_ascii_byte_codes(s);
    lemma_digits_prefix_value(v, 26);
    let d = Seq::new(26, |i: int| digit(v, i) as u8);
    assert(d.take(26) =~= d);
    assert(pow32(0) == 1);
    assert(v as int / 1 == v as int);
    lemma_pow32_25();
    let p = pow32(25) as int;
    let x = v as int;
    assert(x / p < 8) by (nonlinear_arith)
        requires
            0 <= x < 8 * p,
            p > 0,
    ;
    assert(digit(v, 0) == x / p) by {
        vstd::arithmetic::div_mod::lemma_small_mod((x / p) as nat, 32);
    }
    lemma_alphabet_codes();
    assert(code_of(s[0])->0 == digit(v, 0));
    assert(byte_code(encode_utf8(s)[0]) == code_of(s[0]));
}

/// A text that decodes to `v` is the encoding of `v`.
pub proof fn lemma_encode_decode(s: Seq<char>, v: u128)
    requires
        decoded(s) == Ok::<u128, EncodingReason>(v),
    ensures
        encoded(v) == s,
{
    lemma_symbol_bytes_ascii(s);
    lemma_ascii_byte_codes(s);
    assert(byte_code(encode_utf8(s)[0]) == code_of(s[0]));
    lemma_symbols_byte_len(s);
    lemma_alphabet_codes();
    let d = codes(s);
    assert forall|j: int| 0 <= j < d.len() implies #[trigger] d[j] < 32 by {
        assert(is_symbol(s[j]));
    }
    lemma_codes_value_fits(d);
    assert(v as int == codes_value(d));
    assert forall|i: int| 0 <= i < 26 implies #[trigger] encoded(v)[i] == s[i] by {
        lemma_codes_value_div(d, (25 - i) as nat);
        let t = d.take(i + 1);
        assert(t.drop_last() =~= d.take(i));
        let a = codes_value(t.drop_last()) as int;
        let b = t.last() as int;
        assert(codes_value(t) == a * 32 + b);
        assert((a * 32 + b) % 32 == b) by (nonlinear_arith)
            requires
                0 <= b < 32,
                a >= 0,
        ;
        assert(digit(v, i) == d[i]);
        assert(is_symbol(s[i]));
    }
    assert(encoded(v) =~= s);
}

/// Decodes 26 symbols into the 128-bit value they encode.
pub fn decode_base32_to_u128(id: &str) -> (r: Result<u128, Error>)
    ensures
        match decoded(id@) {
            Ok(v) => r == Ok::<u128, Error>(v),
            Err(reason) => r == Err::<u128, Error>(Error::InvalidEncoding { reason }),
        },
{
    let bytes = id.as_bytes();
    let len = bytes.len();
    if len != ENCODED_LEN {
        return Err(Error::InvalidEncoding { reason: EncodingReason::WrongLength { len } });
    }
    let mut digits: Vec<u8> = Vec::new();
    let mut i: usize = 0;
    while i < ENCODED_LEN
        invariant
            bytes@ == encode_utf8(id@),
            bytes@.len() == 26,
            i <= 26,
            digits@.len() == i,
            forall|j: int| 0 <= j < i ==> #[trigger] byte_code(bytes@[j]) is Some,
            forall|j: int| 0 <= j < i ==> digits@[j] == byte_code(#[trigger] bytes@[j])->0,
        decreases 26 - i,
    {
        let b = bytes[i];
        match symbol_code(b as char) {
            None => {
                proof {
                    lemma_first_non_symbol_byte_at(bytes@, i as int);
                }
                return Err(
                    Error::InvalidEncoding {
                        reason: EncodingReason::InvalidCharacter { character: b as char, position: i },
                    },
                );
            },
            Some(d) => digits.push(d),
        }
        i += 1;
    }
    proof {
        lemma_alphabet_codes();
        assert(digits@ =~= byte_codes(bytes@));
        assert forall|j: int| 0 <= j < 26 implies #[trigger] digits@[j] < 32 by {
            assert(code_of(bytes@[j] as char) is Some);
        }
    }
    if digits[0] > 7 {
        return Err(Error::InvalidEncoding { reason: EncodingReason::Overflow });
    }
    let mut out: u128 = 0;
    let mut k: usize = 0;
    while k < ENCODED_LEN
        invariant
            k <= 26,
            digits@.len() == 26,
            digits@[0] <= 7,
            forall|j: int| 0 <= j < 26 ==> #[trigger] digits@[j] < 32,
            digits@ == byte_codes(encode_utf8(id@)),
            out == codes_value(digits@.take(k as int)),
            k >= 1 ==> out < 8 * pow32((k - 1) as nat),
        decreases 26 - k,
    {
        let d = digits[k];
        proof {
            let t = digits@.take(k as int + 1);
            assert(t.drop_last() =~= digits@.take(k as int));
            assert(t.last() == d);
            if k >= 1 {
                let p = pow32((k - 1) as nat);
                assert(pow32(k as nat) == 32 * p);
                assert(out * 32 + d < 8 * pow32(k as nat)) by (nonlinear_arith)
                    requires
                        out < 8 * p,
                        d < 32,
                        pow32(k as nat) == 32 * p,
                ;
            } else {
                assert(pow32(0) == 1);
            }
            lemma_pow32_monotone(k as nat, 25);
            lemma_pow32_25();
        }
        out = out * 32 + d as u128;
        k += 1;
    }
    assert(digits@.take(26) =~= digits@);
    Ok(out)
}

/// Encodes `data` as 26 symbols, most significant first.
pub fn encode_u128_to_base32(data: u128) -> (r: String)
    ensures
        r@ == encoded(data),
{
    let mut codes: [u8; 26] = [0u8; 26];
    let mut rest: u128 = data;
    let mut k: usize = 0;
    assert(pow32(0) == 1);
    assert(data as int / 1 == data as int);
    while k < ENCODED_LEN
        invariant
            k <= 26,
            rest as int == data as int / pow32(k as nat) as int,
            forall|j: int| 26 - k <= j < 26 ==> codes@[j] as int == digit(data, j),
        decreases 26 - k,
    {
        proof {
            lemma_pow32_positive(k as nat);
            lemma_div_denominator(data as int, pow32(k as nat) as int, 32);
            assert(pow32((k + 1) as nat) == pow32(k as nat) * 32);
        }
        assert(rest & 0x1f == rest % 32) by (bit_vector);
        assert(rest >> 5u32 == rest / 32) by (bit_vector);
        let i = 25 - k;
        codes[i] = (rest & 0x1f) as u8;
        rest = rest >> 5u32;
        k += 1;
    }
    let mut out = String::new();
    let mut i: usize = 0;
    while i < ENCODED_LEN
        invariant
            i <= 26,
            out@ == encoded(data).take(i as int),
            forall|j: int| 0 <= j < 26 ==> codes@[j] as int == digit(data, j),
        decreases 26 - i,
    {
        proof {
            lemma_mod_bound(data as int / pow32((25 - i) as nat) as int, 32);
            assert(codes@[i as int] as int == digit(data, i as int));
        }
        push_char(&mut out, CROCKFORD[codes[i] as usize]);
        assert(out@ =~= encoded(data).take(i + 1));
        i += 1;
    }
    assert(out@ =~= encoded(data));
    out
}

/// Encodes a UUID, given as its 128-bit value.
pub fn encode_base32_uuid(uuid: u128) -> (r: String)
    ensures
        r@ == encoded(uuid),
{
    encode_u128_to_base32(uuid)
}

/// Decodes the 128-bit value of a UUID from its 26 symbols.
pub fn decode_base32_uuid(encoded: &str) -> (r: Result<u128, Error>)
    ensures
        match decoded(encoded@) {
            Ok(v) => r == Ok::<u128, Error>(v),
            Err(reason) => r == Err::<u128, Error>(Error::InvalidEncoding { reason }),
        },
{
    decode_base32_to_u128(encoded)
}

} // verus!
