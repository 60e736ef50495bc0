//! Identifiers of groups, connections and saved walls.

use crate::text::ascii_lowered;
use vstd::prelude::*;

verus! {

/// A UUID, held as the number its sixteen bytes spell in big-endian order.
#[derive(Clone, Copy, PartialEq, Eq, Structural, Debug, Hash)]
pub struct Id {
    pub bits: u128,
}

/// The version and variant bits of a random (version 4) UUID.
pub open spec fn is_random_uuid(bits: u128) -> bool {
    &&& (bits >> 76) & 0xf == 4
    &&& (bits >> 62) & 0x3 == 2
}

/// The lower-case hexadecimal digit for a value below sixteen.
pub open spec fn hex_digit(value: u128) -> char {
    if value < 10 {
        ('0' as u128 + value) as char
    } else {
        ('a' as u128 + value - 10) as char
    }
}

/// The positions of the hyphens in the text of a UUID.
pub open spec fn is_hyphen_position(k: int) -> bool {
    k == 8 || k == 13 || k == 18 || k == 23
}

/// How many hyphens stand before position `k`.
pub open spec fn hyphens_before(k: int) -> int {
    if k > 23 {
        4
    } else if k > 18 {
        3
    } else if k > 13 {
        2
    } else if k > 8 {
        1
    } else {
        0
    }
}

/// The text of a UUID: thirty-two lower-case hexadecimal digits, most significant
/// first, in groups of 8, 4, 4, 4 and 12 that hyphens part.
pub open spec fn uuid_text(bits: u128) -> Seq<char> {
    Seq::new(
        36,
        |k: int|
            if is_hyphen_position(k) {
                '-'
            } else {
                hex_digit((bits >> ((124 - 4 * (k - hyphens_before(k))) as u128)) & 0xf)
            },
    )
}

/// Whether `c` is a hexadecimal digit, in either case.
pub open spec fn is_hex(c: char) -> bool {
    '0' <= c <= '9' || 'a' <= c <= 'f' || 'A' <= c <= 'F'
}

/// The value of a hexadecimal digit.
pub open spec fn hex_value(c: char) -> int {
    if '0' <= c <= '9' {
        c as int - '0' as int
    } else if 'a' <= c <= 'f' {
        c as int - 'a' as int + 10
    } else {
        c as int - 'A' as int + 10
    }
}

/// The number that hexadecimal digits spell, the most significant first.
pub open spec fn hex_number(digits: Seq<char>) -> int
    decreases digits.len(),
{
    if digits.len() == 0 {
        0
    } else {
        hex_number(digits.drop_last()) * 16 + hex_value(digits.last())
    }
}

/// The number that a text spells where it is thirty-two hexadecimal digits.
pub open spec fn plain_uuid(text: Seq<char>) -> Option<u128> {
    if text.len() == 32 && forall|k: int| 0 <= k < 32 ==> is_hex(#[trigger] text[k]) {
        Some(hex_number(text) as u128)
    } else {
        None
    }
}

/// The number that a text spells with hyphens between its groups of digits.
pub open spec fn hyphenated_uuid(text: Seq<char>) -> Option<u128> {
    if text.len() == 36 && text[8] == '-' && text[13] == '-' && text[18] == '-' && text[23] == '-' {
        plain_uuid(
            text.subrange(0, 8) + text.subrange(9, 13) + text.subrange(14, 18) + text.subrange(
                19,
                23,
            ) + text.subrange(24, 36),
        )
    } else {
        None
    }
}

/// The UUID that a text spells: plain, hyphenated, hyphenated in braces, or hyphenated
/// behind `urn:uuid:` in any case.
pub open spec fn parsed_uuid(text: Seq<char>) -> Option<u128> {
    if text.len() == 32 {
        plain_uuid(text)
    } else if text.len() == 36 {
        hyphenated_uuid(text)
    } else if text.len() == 38 && text[0] == '{' && text[37] == '}' {
        hyphenated_uuid(text.subrange(1, 37))
    } else if text.len() == 45 && ascii_lowered(text.take(9)) == "urn:uuid:"@ {
        hyphenated_uuid(text.skip(9))
    } else {
        None
    }
}

/// Calls `uuid::Uuid::new_v4`. The bits are random; of every outcome holds that the
/// version and variant fields are those of a version 4 UUID.
#[verifier::external_body]
fn random_bits() -> (bits: u128)
    ensures
        is_random_uuid(bits),
{
    uuid::Uuid::new_v4().as_u128()
}

/// Formats through `uuid::Uuid`'s `Display`, which writes the hyphenated lower-case
/// form.
#[verifier::external_body]
fn format_uuid(bits: u128) -> (text: String)
    ensures
        text@ == uuid_text(bits),
{
    uuid::Uuid::from_u128(bits).to_string()
}

/// Calls `uuid::Uuid::parse_str`, which accepts the four forms of [`parsed_uuid`] and
/// nothing else.
#[verifier::external_body]
fn parse_uuid(text: &str) -> (bits: Option<u128>)
    ensures
        bits == parsed_uuid(text@),
{
    match uuid::Uuid::parse_str(text) {
        Ok(uuid) => Some(uuid.as_u128()),
        Err(_) => None,
    }
}

impl Id {
    /// A fresh random identifier.
    pub fn new_v4() -> (id: Id)
        ensures
            is_random_uuid(id.bits),
    {
        Id { bits: random_bits() }
    }

    pub fn from_u128(bits: u128) -> (id: Id)
        ensures
            id.bits == bits,
    {
        Id { bits }
    }

    pub fn as_u128(&self) -> (bits: u128)
        ensures
            bits == self.bits,
    {
        self.bits
    }

    /// The hyphenated text of the identifier.
    pub fn text(&self) -> (text: String)
        ensures
            text@ == uuid_text(self.bits),
    {
        format_uuid(self.bits)
    }

    /// Reads an identifier back from its text.
    pub fn parse(text: &str) -> (id: Option<Id>)
        ensures
            id == (match parsed_uuid(text@) {
                Some(bits) => Some(Id { bits }),
                None => None,
            }),
    {
        match parse_uuid(text) {
            Some(bits) => Some(Id { bits }),
            None => None,
        }
    }
}

/// A hexadecimal digit reads back as its value.
proof fn lemma_hex_digit(value: u128)
    requires
        value < 16,
    ensures
        is_hex(hex_digit(value)),
        hex_value(hex_digit(value)) == value,
{
}

/// The first digits of a number spell the number without its last bits.
proof fn lemma_hex_digits(bits: u128, digits: Seq<char>, k: int)
    requires
        digits.len() == 32,
        forall|i: int|
            0 <= i < 32 ==> #[trigger] digits[i] == hex_digit((bits >> ((124 - 4 * i) as u128)) & 0xf),
        1 <= k <= 32,
    ensures
        hex_number(digits.take(k)) == bits >> ((128 - 4 * k) as u128),
    decreases k,
{
    let shift = (128 - 4 * k) as u128;
    let value = (bits >> shift) & 0xf;
    assert(digits[k - 1] == hex_digit(value));
    assert(value < 16) by (bit_vector)
        requires
            value == (bits >> shift) & 0xf,
    ;
    lemma_hex_digit(value);
    let head = digits.take(k);
    assert(head.drop_last() == digits.take(k - 1));
    assert(head.last() == digits[k - 1]);
    if k == 1 {
        assert(digits.take(0) == Seq::<char>::empty());
        assert(hex_number(digits.take(0)) == 0);
        assert(bits >> 124u128 == (bits >> 124u128) & 0xf) by (bit_vector);
    } else {
        lemma_hex_digits(bits, digits, k - 1);
        let above = (shift + 4) as u128;
        assert(above == (128 - 4 * (k - 1)) as u128);
        assert(bits >> shift == (bits >> above) * 16 + ((bits >> shift) & 0xf)) by (bit_vector)
            requires
                shift <= 120,
                above == shift + 4,
        ;
    }
}

/// An identifier's text reads back as the identifier.
pub proof fn law_text_reads_back(bits: u128)
    ensures
        parsed_uuid(uuid_text(bits)) == Some(bits),
{
    let text = uuid_text(bits);
    let digits = text.subrange(0, 8) + text.subrange(9, 13) + text.subrange(14, 18)
        + text.subrange(19, 23) + text.subrange(24, 36);
    assert forall|i: int| 0 <= i < 32 implies #[trigger] digits[i] == hex_digit(
        (bits >> ((124 - 4 * i) as u128)) & 0xf,
    ) && is_hex(digits[i]) by {
        let shift = (124 - 4 * i) as u128;
        let value = (bits >> shift) & 0xf;
        assert(value < 16) by (bit_vector)
            requires
                value == (bits >> shift) & 0xf,
        ;
        lemma_hex_digit(value);
    }
    lemma_hex_digits(bits, digits, 32);
    assert(digits.take(32) == digits);
    assert(bits >> 0u128 == bits) by (bit_vector);
}

/// Different identifiers have different texts.
pub proof fn law_texts_differ(a: u128, b: u128)
    requires
        a != b,
    ensures
        uuid_text(a) != uuid_text(b),
{
    law_text_reads_back(a);
    law_text_reads_back(b);
}

} // verus!
