//! The TypeID value: a validated prefix paired with a 128-bit value, its
//! canonical text form, parsing, and ordering.
use vstd::prelude::*;
use vstd::utf8::{encode_scalar, encode_utf8, is_ascii_chars, is_ascii_chars_encode_utf8};

use std::cmp::Ordering;

use crate::base32::{
    byte_len, code_of, decode_base32_to_u128, lemma_ascii_byte_codes, lemma_ascii_from_bytes, decoded, encode_base32_uuid, encoded,
    lemma_decode_encode, lemma_encode_decode, lemma_encoded_codes, lemma_symbols_byte_len,
    EncodingReason,
};
use crate::text::push_char;

verus! {

/// Longest prefix, in bytes.
pub const MAX_PREFIX_LEN: usize = 63;

/// Longest text that parsing looks at, in bytes.
pub const MAX_TEXT_LEN: usize = 89;

/// Why a prefix is rejected.
#[derive(Debug, Clone, Copy, PartialEq, Eq)]
pub enum PrefixReason {
    /// Longer than 63 bytes; `len` is its length in bytes.
    TooLong { len: usize },
    /// The first character is `_`.
    LeadingUnderscore,
    /// The last character is `_`.
    TrailingUnderscore,
    /// An uppercase ASCII letter at byte `position`.
    Uppercase { character: char, position: usize },
    /// An ASCII digit at byte `position`.
    Digit { character: char, position: usize },
    /// Any other byte that is neither a lowercase ASCII letter nor `_`,
    /// shown as `character`, at byte `position`.
    InvalidCharacter { character: char, position: usize },
}

/// Why a text is not a well-formed TypeID as a whole.
#[derive(Debug, Clone, Copy, PartialEq, Eq)]
pub enum FormatReason {
    /// The text starts with the separator `_`, leaving an empty prefix before it.
    LeadingSeparator,
}

#[non_exhaustive]
#[derive(Debug, Clone, PartialEq, Eq)]
pub enum Error {
    /// The text is malformed as a whole.
    InvalidFormat { reason: FormatReason },
    /// The prefix `actual` breaks the prefix grammar.
    InvalidPrefix { actual: String, reason: PrefixReason },
    /// The suffix is not the encoding of a 128-bit value.
    InvalidSuffix { reason: EncodingReason },
    /// The text is longer than 89 bytes.
    TooLong,
}

/// An [`Error`] with the offending prefix seen as its characters.
pub enum ErrorView {
    InvalidFormat { reason: FormatReason },
    InvalidPrefix { actual: Seq<char>, reason: PrefixReason },
    InvalidSuffix { reason: EncodingReason },
    TooLong,
}

impl View for Error {
    type V = ErrorView;

    open spec fn view(&self) -> ErrorView {
        match self {
            Error::InvalidFormat { reason } => ErrorView::InvalidFormat { reason: *reason },
            Error::InvalidPrefix { actual, reason } => ErrorView::InvalidPrefix {
                actual: actual@,
                reason: *reason,
            },
            Error::InvalidSuffix { reason } => ErrorView::InvalidSuffix { reason: *reason },
            Error::TooLong => ErrorView::TooLong,
        }
    }
}

pub open spec fn is_lowercase(c: char) -> bool {
    'a' <= c <= 'z'
}

/// A character that a prefix may hold.
pub open spec fn is_prefix_char(c: char) -> bool {
    is_lowercase(c) || c == '_'
}

pub open spec fn all_prefix_chars(s: Seq<char>) -> bool {
    forall|i: int| 0 <= i < s.len() ==> is_prefix_char(#[trigger] s[i])
}

/// A byte that a prefix may hold: a lowercase ASCII letter or `_`.
pub open spec fn is_prefix_byte(b: u8) -> bool {
    is_prefix_char(b as char)
}

pub open spec fn all_prefix_bytes(b: Seq<u8>) -> bool {
    forall|i: int| 0 <= i < b.len() ==> is_prefix_byte(#[trigger] b[i])
}

/// The position of the first byte of `b` that a prefix may not hold
/// (meaningful when there is one).
pub open spec fn first_non_prefix_byte(b: Seq<u8>) -> int {
    choose|p: int|
        0 <= p < b.len() && !is_prefix_byte(b[p]) && forall|j: int|
            0 <= j < p ==> is_prefix_byte(#[trigger] b[j])
}

/// How a byte that a prefix may not hold is reported, read as a character.
pub open spec fn bad_char_reason(c: char, position: int) -> PrefixReason {
    if 'A' <= c <= 'Z' {
        PrefixReason::Uppercase { character: c, position: position as usize }
    } else if '0' <= c <= '9' {
        PrefixReason::Digit { character: c, position: position as usize }
    } else {
        PrefixReason::InvalidCharacter { character: c, position: position as usize }
    }
}

/// The first rule of the prefix grammar that `s` breaks, in the order the
/// rules are checked, or `None` when `s` is a valid prefix. The rules are
/// checked on the UTF-8 bytes of `s`; a disallowed byte is reported at its
/// byte position.
pub open spec fn prefix_problem(s: Seq<char>) -> Option<PrefixReason> {
    let b = encode_utf8(s);
    if b.len() > 63 {
        Some(PrefixReason::TooLong { len: b.len() as usize })
    } else if b.len() == 0 {
        None
    } else if b[0] as char == '_' {
        Some(PrefixReason::LeadingUnderscore)
    } else if b.last() as char == '_' {
        Some(PrefixReason::TrailingUnderscore)
    } else if !all_prefix_bytes(b) {
        Some(bad_char_reason(b[first_non_prefix_byte(b)] as char, first_non_prefix_byte(b)))
    } else {
        None
    }
}

/// `s` is a valid prefix: empty, or at most 63 lowercase ASCII letters and
/// underscores that neither start nor end with `_`.
pub open spec fn valid_prefix(s: Seq<char>) -> bool {
    prefix_problem(s) is None
}

/// A valid prefix is ASCII, so its length in bytes is its length in characters.
pub proof fn lemma_valid_prefix_ascii(s: Seq<char>)
    requires
        valid_prefix(s),
    ensures
        all_prefix_chars(s),
        is_ascii_chars(s),
        byte_len(s) == s.len(),
        s.len() <= 63,
        s.len() > 0 ==> s[0] != '_' && s.last() != '_',
{
    let b = encode_utf8(s);
    if s.len() > 0 {
        assert(b == encode_scalar(s[0] as u32) + encode_utf8(s.drop_first()));
    }
    assert forall|i: int| 0 <= i < b.len() implies #[trigger] b[i] < 0x80 by {
        assert(is_prefix_byte(b[i]));
    }
    lemma_ascii_from_bytes(s);
    lemma_ascii_byte_codes(s);
    is_ascii_chars_encode_utf8(s);
    assert forall|i: int| 0 <= i < s.len() implies is_prefix_char(#[trigger] s[i]) by {
        assert(b[i] as char == s[i]);
        assert(is_prefix_byte(b[i]));
    }
    if s.len() > 0 {
        assert(b[0] as char == s[0]);
        assert(b.last() as char == s.last());
    }
}

/// The first disallowed byte of `b` is at `i` when `b[i]` is disallowed and
/// all bytes before it are allowed.
proof fn lemma_first_non_prefix_byte_at(b: Seq<u8>, i: int)
    requires
        0 <= i < b.len(),
        !is_prefix_byte(b[i]),
        forall|j: int| 0 <= j < i ==> is_prefix_byte(#[trigger] b[j]),
    ensures
        !all_prefix_bytes(b),
        first_non_prefix_byte(b) == i,
{
    let p = first_non_prefix_byte(b);
    assert(0 <= p < b.len() && !is_prefix_byte(b[p]) && forall|j: int|
        0 <= j < p ==> is_prefix_byte(#[trigger] b[j]));
    if p < i {
        assert(is_prefix_byte(b[p]));
    } else if p > i {
        assert(is_prefix_byte(b[i]));
    }
}

/// The type tag of a TypeID: always a valid prefix.
#[derive(Debug, PartialEq, Eq, PartialOrd, Ord, Hash)]
pub struct TypeIDPrefix(String);

impl Clone for TypeIDPrefix {
    fn clone(&self) -> (r: Self)
        ensures
            r@ == self@,
    {
        proof {
            use_type_invariant(self);
        }
        TypeIDPrefix(self.0.clone())
    }
}

impl View for TypeIDPrefix {
    type V = Seq<char>;

    closed spec fn view(&self) -> Seq<char> {
        self.0@
    }
}

impl TypeIDPrefix {
    #[verifier::type_invariant]
    spec fn inv(&self) -> bool {
        valid_prefix(self.0@)
    }

    /// Validates `tag` and wraps it.
    pub fn new(tag: &str) -> (r: Result<Self, Error>)
        ensures
            match prefix_problem(tag@) {
                None => r matches Ok(p) && p@ == tag@,
                Some(reason) => r matches Err(e) && e@ == ErrorView::InvalidPrefix {
                    actual: tag@,
                    reason,
                },
            },
    {
        match Self::validate_prefix(tag) {
            Ok(()) => Ok(TypeIDPrefix(tag.to_owned())),
            Err(e) => Err(e),
        }
    }

    /// Wraps `tag`, which the caller knows to be a valid prefix.
    pub fn try_unsafe(tag: &str) -> (r: Self)
        requires
            valid_prefix(tag@),
        ensures
            r@ == tag@,
    {
        TypeIDPrefix(tag.to_owned())
    }

    fn validate_prefix(tag: &str) -> (r: Result<(), Error>)
        ensures
            match prefix_problem(tag@) {
                None => r is Ok,
                Some(reason) => r matches Err(e) && e@ == ErrorView::InvalidPrefix {
                    actual: tag@,
                    reason,
                },
            },
    {
        let bytes = tag.as_bytes();
        let len = bytes.len();
        if len > MAX_PREFIX_LEN {
            return Err(
                Error::InvalidPrefix {
                    actual: tag.to_owned(),
                    reason: PrefixReason::TooLong { len },
                },
            );
        }
        if len == 0 {
            return Ok(());
        }
        if bytes[0] as char == '_' {
            return Err(
                Error::InvalidPrefix {
                    actual: tag.to_owned(),
                    reason: PrefixReason::LeadingUnderscore,
                },
            );
        }
        if bytes[len - 1] as char == '_' {
            return Err(
                Error::InvalidPrefix {
                    actual: tag.to_owned(),
                    reason: PrefixReason::TrailingUnderscore,
                },
            );
        }
        let mut i: usize = 0;
        while i < len
            invariant
                bytes@ == encode_utf8(tag@),
                len == bytes@.len(),
                0 < len <= 63,
                bytes@[0] as char != '_',
                bytes@.last() as char != '_',
                i <= len,
                forall|j: int| 0 <= j < i ==> is_prefix_byte(#[trigger] bytes@[j]),
            decreases len - i,
        {
            let c = bytes[i] as char;
            if !('a' <= c && c <= 'z') && c != '_' {
                proof {
                    lemma_first_non_prefix_byte_at(bytes@, i as int);
                }
                let reason = if 'A' <= c && c <= 'Z' {
                    PrefixReason::Uppercase { character: c, position: i }
                } else if '0' <= c && c <= '9' {
                    PrefixReason::Digit { character: c, position: i }
                } else {
                    PrefixReason::InvalidCharacter { character: c, position: i }
                };
                return Err(Error::InvalidPrefix { actual: tag.to_owned(), reason });
            }
            i += 1;
        }
        Ok(())
    }

    /// The prefix as text.
    pub fn to_type_prefix(&self) -> (r: &str)
        ensures
            r@ == self@,
            valid_prefix(r@),
    {
        proof {
            use_type_invariant(self);
        }
        self.0.as_str()
    }
}

/// A version-7 UUID read as a big-endian integer: version nibble 7 and
/// variant bits `10`.
pub open spec fn is_v7(v: u128) -> bool {
    (v >> 76u128) & 0xf == 7 && (v >> 62u128) & 0x3 == 2
}

/// Relies on `uuid::Uuid::now_v7`, which returns a version-7 UUID of the RFC
/// 9562 variant, and on `Uuid::as_u128`, which reads its bytes big-endian.
#[verifier::external_body]
pub(crate) fn now_v7() -> (r: u128)
    ensures
        is_v7(r),
{
    uuid::Uuid::now_v7().as_u128()
}

/// The position of the last separator `_` in `s`, or -1 when there is none.
pub open spec fn last_separator(s: Seq<char>) -> int
    decreases s.len(),
{
    if s.len() == 0 {
        -1
    } else if s.last() == '_' {
        s.len() - 1
    } else {
        last_separator(s.drop_last())
    }
}

/// The canonical text of a TypeID seen as its prefix and value.
pub open spec fn rendered(t: (Seq<char>, u128)) -> Seq<char> {
    if t.0.len() == 0 {
        encoded(t.1)
    } else {
        t.0 + seq!['_'] + encoded(t.1)
    }
}

/// What parsing the text `s` gives: the prefix and value, or the first
/// problem found.
pub open spec fn parsed(s: Seq<char>) -> Result<(Seq<char>, u128), ErrorView> {
    let k = last_separator(s);
    if byte_len(s) > 89 {
        Err(ErrorView::TooLong)
    } else if k == 0 {
        Err(ErrorView::InvalidFormat { reason: FormatReason::LeadingSeparator })
    } else {
        let tag = if k < 0 {
            Seq::<char>::empty()
        } else {
            s.take(k)
        };
        match decoded(s.skip(k + 1)) {
            Err(reason) => Err(ErrorView::InvalidSuffix { reason }),
            Ok(v) => match prefix_problem(tag) {
                Some(reason) => Err(ErrorView::InvalidPrefix { actual: tag, reason }),
                None => Ok((tag, v)),
            },
        }
    }
}

/// The position of the last separator of `s`, if it has one.
fn find_last_separator(s: &str) -> (r: Option<usize>)
    ensures
        match r {
            None => last_separator(s@) == -1,
            Some(k) => last_separator(s@) == k && k < s@.len(),
        },
{
    let n = s.unicode_len();
    let mut i = n;
    assert(s@.take(n as int) =~= s@);
    while i > 0
        invariant
            n == s@.len(),
            i <= n,
            last_separator(s@) == last_separator(s@.take(i as int)),
        decreases i,
    {
        let t = Ghost(s@.take(i as int));
        if s.get_char(i - 1) == '_' {
            assert(t@.last() == '_');
            return Some(i - 1);
        }
        assert(t@.drop_last() =~= s@.take(i - 1));
        i -= 1;
    }
    None
}

/// An identifier: a valid prefix and a 128-bit value.
#[derive(Debug, PartialEq, Eq, PartialOrd, Ord, Hash)]
pub struct TypeID(TypeIDPrefix, u128);

impl Clone for TypeID {
    fn clone(&self) -> (r: Self)
        ensures
            r@ == self@,
    {
        TypeID(self.0.clone(), self.1)
    }
}

impl View for TypeID {
    type V = (Seq<char>, u128);

    closed spec fn view(&self) -> (Seq<char>, u128) {
        (self.0@, self.1)
    }
}

impl TypeID {
    /// Pairs a prefix with a value.
    pub fn new(type_prefix: TypeIDPrefix, uuid: u128) -> (r: Self)
        ensures
            r@ == (type_prefix@, uuid),
    {
        TypeID(type_prefix, uuid)
    }

    /// Pairs the empty prefix with a value.
    pub fn new_nil(uuid: u128) -> (r: Self)
        ensures
            r@ == (Seq::<char>::empty(), uuid),
    {
        TypeID(empty_prefix(), uuid)
    }

    /// Validates `prefix` and pairs it with a fresh version-7 value.
    pub fn generate(prefix: &str) -> (r: Result<Self, Error>)
        ensures
            match prefix_problem(prefix@) {
                None => r matches Ok(t) && t@.0 == prefix@ && is_v7(t@.1),
                Some(reason) => r matches Err(e) && e@ == ErrorView::InvalidPrefix {
                    actual: prefix@,
                    reason,
                },
            },
    {
        match TypeIDPrefix::new(prefix) {
            Ok(type_prefix) => Ok(TypeID(type_prefix, now_v7())),
            Err(e) => Err(e),
        }
    }

    /// A fresh version-7 value with the empty prefix.
    pub fn generate_nil() -> (r: Self)
        ensures
            r@.0 == Seq::<char>::empty(),
            is_v7(r@.1),
    {
        TypeID(empty_prefix(), now_v7())
    }

    /// Parses the canonical text form.
    pub fn from_string(id: &str) -> (r: Result<Self, Error>)
        ensures
            match parsed(id@) {
                Ok(t) => r matches Ok(x) && x@ == t,
                Err(e) => r matches Err(x) && x@ == e,
            },
    {
        if id.as_bytes().len() > MAX_TEXT_LEN {
            return Err(Error::TooLong);
        }
        let n = id.unicode_len();
        let (tag, suffix) = match find_last_separator(id) {
            None => {
                proof {
                    reveal_strlit("");
                    assert(id@.skip(0) =~= id@);
                }
                ("", id)
            },
            Some(0) => {
                return Err(Error::InvalidFormat { reason: FormatReason::LeadingSeparator });
            },
            Some(k) => (id.substring_char(0, k), id.substring_char(k + 1, n)),
        };
        let value = match decode_base32_to_u128(suffix) {
            Ok(v) => v,
            Err(crate::base32::Error::InvalidEncoding { reason }) => {
                return Err(Error::InvalidSuffix { reason });
            },
        };
        match TypeIDPrefix::new(tag) {
            Ok(type_prefix) => Ok(TypeID(type_prefix, value)),
            Err(e) => Err(e),
        }
    }

    /// The prefix.
    pub fn type_prefix(&self) -> (r: &str)
        ensures
            r@ == self@.0,
            valid_prefix(r@),
    {
        self.0.to_type_prefix()
    }

    /// The 128-bit value.
    pub fn uuid(&self) -> (r: u128)
        ensures
            r == self@.1,
    {
        self.1
    }

    /// Whether the prefix is empty.
    pub fn is_nil_prefix(&self) -> (r: bool)
        ensures
            r == (self@.0.len() == 0),
    {
        self.type_prefix().is_empty()
    }

    /// The canonical text: `prefix_suffix`, or only the suffix when the
    /// prefix is empty.
    pub fn to_string(&self) -> (r: String)
        ensures
            r@ == rendered(self@),
            valid_prefix(self@.0),
    {
        let tag = self.type_prefix();
        let suffix = encode_base32_uuid(self.1);
        if tag.is_empty() {
            suffix
        } else {
            let mut out = tag.to_owned();
            push_char(&mut out, '_');
            out.append(suffix.as_str());
            out
        }
    }
}

/// The empty prefix.
fn empty_prefix() -> (r: TypeIDPrefix)
    ensures
        r@ == Seq::<char>::empty(),
{
    proof {
        reveal_strlit("");
    }
    TypeIDPrefix::try_unsafe("")
}

/// Lexicographic order of character sequences.
pub open spec fn lex_cmp(a: Seq<char>, b: Seq<char>) -> Ordering
    decreases a.len(),
{
    if a.len() == 0 {
        if b.len() == 0 {
            Ordering::Equal
        } else {
            Ordering::Less
        }
    } else if b.len() == 0 {
        Ordering::Greater
    } else if a[0] < b[0] {
        Ordering::Less
    } else if a[0] > b[0] {
        Ordering::Greater
    } else {
        lex_cmp(a.drop_first(), b.drop_first())
    }
}

/// Numeric order of 128-bit values.
pub open spec fn value_cmp(a: u128, b: u128) -> Ordering {
    if a < b {
        Ordering::Less
    } else if a == b {
        Ordering::Equal
    } else {
        Ordering::Greater
    }
}

/// The order of TypeIDs: by prefix, then by value.
pub open spec fn id_cmp(a: (Seq<char>, u128), b: (Seq<char>, u128)) -> Ordering {
    match lex_cmp(a.0, b.0) {
        Ordering::Equal => value_cmp(a.1, b.1),
        o => o,
    }
}

/// Orders two ASCII texts byte by byte.
pub(crate) fn compare_ascii(a: &str, b: &str) -> (r: Ordering)
    requires
        is_ascii_chars(a@),
        is_ascii_chars(b@),
    ensures
        r == lex_cmp(a@, b@),
{
    let x = a.as_bytes();
    let y = b.as_bytes();
    proof {
        is_ascii_chars_encode_utf8(a@);
        is_ascii_chars_encode_utf8(b@);
        assert(a@.skip(0) =~= a@);
        assert(b@.skip(0) =~= b@);
    }
    let mut i: usize = 0;
    while i < x.len() && i < y.len()
        invariant
            x@ == vstd::utf8::encode_utf8(a@),
            y@ == vstd::utf8::encode_utf8(b@),
            x@.len() == a@.len(),
            y@.len() == b@.len(),
            forall|j: int| 0 <= j < a@.len() ==> a@[j] as u8 == #[trigger] x@[j],
            forall|j: int| 0 <= j < b@.len() ==> b@[j] as u8 == #[trigger] y@[j],
            is_ascii_chars(a@),
            is_ascii_chars(b@),
            i <= x@.len(),
            i <= y@.len(),
            lex_cmp(a@, b@) == lex_cmp(a@.skip(i as int), b@.skip(i as int)),
        decreases x@.len() - i,
    {
        let u = x[i];
        let v = y[i];
        let ghost (sa, sb) = (a@.skip(i as int), b@.skip(i as int));
        assert(sa[0] == a@[i as int] && sb[0] == b@[i as int]);
        assert('\0' <= a@[i as int] <= '\u{7f}' && '\0' <= b@[i as int] <= '\u{7f}');
        if u < v {
            return Ordering::Less;
        }
        if u > v {
            return Ordering::Greater;
        }
        assert(sa.drop_first() =~= a@.skip(i + 1));
        assert(sb.drop_first() =~= b@.skip(i + 1));
        i += 1;
    }
    if x.len() < y.len() {
        Ordering::Less
    } else if x.len() == y.len() {
        Ordering::Equal
    } else {
        Ordering::Greater
    }
}

impl TypeID {
    /// Orders by prefix, byte by byte, then by value as an unsigned integer.
    pub fn compare(&self, other: &Self) -> (r: Ordering)
        ensures
            r == id_cmp(self@, other@),
    {
        let a = self.type_prefix();
        let b = other.type_prefix();
        proof {
            lemma_valid_prefix_ascii(a@);
            lemma_valid_prefix_ascii(b@);
        }
        match compare_ascii(a, b) {
            Ordering::Equal => {
                if self.1 < other.1 {
                    Ordering::Less
                } else if self.1 == other.1 {
                    Ordering::Equal
                } else {
                    Ordering::Greater
                }
            },
            o => o,
        }
    }
}

/// The last separator of `s` is at `k` when `s[k]` is one and none follows it.
proof fn lemma_last_separator_at(s: Seq<char>, k: int)
    requires
        0 <= k < s.len(),
        s[k] == '_',
        forall|j: int| k < j < s.len() ==> #[trigger] s[j] != '_',
    ensures
        last_separator(s) == k,
    decreases s.len(),
{
    if s.len() - 1 != k {
        lemma_last_separator_at(s.drop_last(), k);
    }
}

/// A text without separators has no last separator.
proof fn lemma_no_separator(s: Seq<char>)
    requires
        forall|j: int| 0 <= j < s.len() ==> #[trigger] s[j] != '_',
    ensures
        last_separator(s) == -1,
    decreases s.len(),
{
    if s.len() > 0 {
        lemma_no_separator(s.drop_last());
    }
}

/// The last separator, when there is one, is a separator inside `s`.
proof fn lemma_last_separator_bounds(s: Seq<char>)
    ensures
        -1 <= last_separator(s) < s.len(),
        last_separator(s) >= 0 ==> s[last_separator(s)] == '_',
    decreases s.len(),
{
    if s.len() > 0 && s.last() != '_' {
        lemma_last_separator_bounds(s.drop_last());
    }
}

/// The encoding of a value holds no separator.
proof fn lemma_encoded_has_no_separator(v: u128)
    ensures
        forall|j: int| 0 <= j < encoded(v).len() ==> #[trigger] encoded(v)[j] != '_',
        byte_len(encoded(v)) == 26,
        is_ascii_chars(encoded(v)),
{
    lemma_encoded_codes(v);
    lemma_symbols_byte_len(encoded(v));
    assert forall|j: int| 0 <= j < encoded(v).len() implies #[trigger] encoded(v)[j] != '_' by {
        assert(code_of(encoded(v)[j]) is Some);
    }
}

/// Parsing the canonical text of a TypeID gives that TypeID back, for every
/// valid prefix of at most 62 characters. (A 63-character prefix renders to
/// 90 bytes, one more than parsing accepts.)
pub proof fn lemma_parse_rendered(t: (Seq<char>, u128))
    requires
        valid_prefix(t.0),
        t.0.len() <= 62,
    ensures
        parsed(rendered(t)) == Ok::<(Seq<char>, u128), ErrorView>(t),
{
    let (p, v) = t;
    let e = encoded(v);
    lemma_encoded_has_no_separator(v);
    lemma_decode_encode(v);
    lemma_valid_prefix_ascii(p);
    let s = rendered(t);
    if p.len() == 0 {
        lemma_no_separator(e);
        assert(e.skip(0) =~= e);
        assert(p =~= Seq::<char>::empty());
    } else {
        let k = p.len() as int;
        assert(s[k] == '_');
        lemma_last_separator_at(s, k);
        assert(is_ascii_chars(s));
        is_ascii_chars_encode_utf8(s);
        assert(s.take(k) =~= p);
        assert(s.skip(k + 1) =~= e);
    }
}

/// A text that parses is the canonical text of what it parses to.
pub proof fn lemma_rendered_parse(s: Seq<char>)
    requires
        parsed(s) is Ok,
    ensures
        rendered(parsed(s)->Ok_0) == s,
{
    let t = parsed(s)->Ok_0;
    let k = last_separator(s);
    lemma_last_separator_bounds(s);
    lemma_encode_decode(s.skip(k + 1), t.1);
    if k < 0 {
        assert(s.skip(0) =~= s);
    } else {
        assert(s.take(k) + seq!['_'] + s.skip(k + 1) =~= s);
    }
}

/// `lex_cmp` is reflexive, and it says `Equal` only of equal sequences.
pub proof fn lemma_lex_cmp_equal(a: Seq<char>, b: Seq<char>)
    ensures
        lex_cmp(a, b) == Ordering::Equal <==> a == b,
    decreases a.len(),
{
    if a.len() > 0 && b.len() > 0 && a[0] == b[0] {
        lemma_lex_cmp_equal(a.drop_first(), b.drop_first());
        if a.drop_first() == b.drop_first() {
            assert(a =~= seq![a[0]] + a.drop_first());
            assert(b =~= seq![b[0]] + b.drop_first());
        }
    } else if a.len() == 0 && b.len() == 0 {
        assert(a =~= b);
    }
}

/// Swapping the arguments of `lex_cmp` swaps `Less` and `Greater`.
proof fn lemma_lex_cmp_swap(a: Seq<char>, b: Seq<char>)
    ensures
        lex_cmp(a, b) == Ordering::Less <==> lex_cmp(b, a) == Ordering::Greater,
    decreases a.len(),
{
    if a.len() > 0 && b.len() > 0 && a[0] == b[0] {
        lemma_lex_cmp_swap(a.drop_first(), b.drop_first());
    }
}

/// `lex_cmp` is transitive on `Less`.
proof fn lemma_lex_cmp_transitive(a: Seq<char>, b: Seq<char>, c: Seq<char>)
    requires
        lex_cmp(a, b) == Ordering::Less,
        lex_cmp(b, c) == Ordering::Less,
    ensures
        lex_cmp(a, c) == Ordering::Less,
    decreases a.len(),
{
    if a.len() > 0 && b.len() > 0 && c.len() > 0 && a[0] == b[0] && b[0] == c[0] {
        lemma_lex_cmp_transitive(a.drop_first(), b.drop_first(), c.drop_first());
    }
}

/// The order of TypeIDs is antisymmetric, and two TypeIDs compare `Equal`
/// exactly when they are the same.
pub proof fn lemma_cmp_antisymmetric(a: (Seq<char>, u128), b: (Seq<char>, u128))
    ensures
        id_cmp(a, b) == Ordering::Less <==> id_cmp(b, a) == Ordering::Greater,
        id_cmp(a, b) == Ordering::Equal <==> a == b,
        id_cmp(a, b) == Ordering::Equal <==> id_cmp(b, a) == Ordering::Equal,
{
    lemma_lex_cmp_equal(a.0, b.0);
    lemma_lex_cmp_equal(b.0, a.0);
    lemma_lex_cmp_swap(a.0, b.0);
    lemma_lex_cmp_swap(b.0, a.0);
}

/// The order of TypeIDs is transitive.
pub proof fn lemma_cmp_transitive(
    a: (Seq<char>, u128),
    b: (Seq<char>, u128),
    c: (Seq<char>, u128),
)
    requires
        id_cmp(a, b) != Ordering::Greater,
        id_cmp(b, c) != Ordering::Greater,
    ensures
        id_cmp(a, c) != Ordering::Greater,
        id_cmp(a, b) == Ordering::Less || id_cmp(b, c) == Ordering::Less ==> id_cmp(a, c)
            == Ordering::Less,
{
    lemma_lex_cmp_equal(a.0, b.0);
    lemma_lex_cmp_equal(b.0, c.0);
    lemma_lex_cmp_equal(a.0, c.0);
    lemma_lex_cmp_swap(a.0, c.0);
    lemma_lex_cmp_swap(c.0, a.0);
    if lex_cmp(a.0, b.0) == Ordering::Less && lex_cmp(b.0, c.0) == Ordering::Less {
        lemma_lex_cmp_transitive(a.0, b.0, c.0);
    }
}

} // verus!
