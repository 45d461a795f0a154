//! Seeds from UUIDs and the default palette.

use vstd::prelude::*;
use vstd::string::StrSliceExecFns;

verus! {

/// The error of the `uuid` crate for a text that is no UUID.
#[verifier::external_type_specification]
#[verifier::external_body]
pub struct ExUuidError(uuid::Error);

/// The sixteen bytes of the UUID that `text` denotes, or `None` where `text`
/// is not a UUID in one of the forms that the `uuid` crate reads.
pub uninterp spec fn uuid_bytes(text: Seq<char>) -> Option<Seq<u8>>;

/// Calls `uuid::Uuid::parse_str` and hands out the bytes of the UUID it
/// found.  The contract only names the outcome: it succeeds exactly where
/// `uuid_bytes` is defined, and then returns those bytes.
#[verifier::external_body]
fn parse_uuid(text: &str) -> (parsed: Result<[u8; 16], uuid::Error>)
    ensures
        parsed.is_ok() == uuid_bytes(text@).is_some(),
        parsed matches Ok(bytes) ==> uuid_bytes(text@) == Some(bytes@),
{
    match uuid::Uuid::parse_str(text) {
        Ok(id) => Ok(*id.as_bytes()),
        Err(error) => Err(error),
    }
}

/// Why a seed could not be derived.
#[derive(Debug, Clone, Copy, PartialEq, Eq, Structural)]
pub enum SeedError {
    /// The text is not a UUID.
    InvalidUuid,
}

/// The number that the first `n` bytes spell, most significant byte first.
pub open spec fn big_endian(bytes: Seq<u8>, n: nat) -> nat
    decreases n,
{
    if n == 0 {
        0
    } else {
        big_endian(bytes, (n - 1) as nat) * 256 + bytes[n - 1] as nat
    }
}

/// The seed that belongs to the bytes of a UUID: its first eight bytes, most
/// significant first.
pub open spec fn seed_of(bytes: Seq<u8>) -> nat {
    big_endian(bytes, 8)
}

/// The number of values that `n` bytes can spell.
pub open spec fn byte_range(n: nat) -> nat
    decreases n,
{
    if n == 0 {
        1
    } else {
        256 * byte_range((n - 1) as nat)
    }
}

/// Eight bytes spell the values of a `u64`, and fewer bytes fewer values.
proof fn lemma_byte_range(n: nat)
    requires
        n < 8,
    ensures
        256 * byte_range(n) == byte_range(n + 1),
        256 * byte_range(n) <= byte_range(8),
        byte_range(8) == 0x1_0000_0000_0000_0000,
{
    reveal_with_fuel(byte_range, 9);
}

/// Folds the first eight bytes of a UUID into a seed.
pub fn seed_from_bytes(bytes: &[u8; 16]) -> (seed: u64)
    ensures
        seed == seed_of(bytes@),
{
    let mut seed: u64 = 0;
    let mut i: usize = 0;
    while i < 8
        invariant
            i <= 8,
            seed == big_endian(bytes@, i as nat),
            seed < byte_range(i as nat),
        decreases 8 - i,
    {
        proof {
            lemma_byte_range(i as nat);
        }
        seed = seed * 256 + bytes[i] as u64;
        i = i + 1;
    }
    seed
}

/// Derives a seed from a UUID in text form: the first eight bytes of the
/// UUID, most significant first.  Text that is no UUID is an error.
pub fn uuid_to_seed(uuid: &str) -> (seed: Result<u64, SeedError>)
    ensures
        match uuid_bytes(uuid@) {
            Some(bytes) => bytes.len() == 16 && seed == Ok::<u64, SeedError>(seed_of(bytes) as u64),
            None => seed == Err::<u64, SeedError>(SeedError::InvalidUuid),
        },
{
    match parse_uuid(uuid) {
        Ok(bytes) => Ok(seed_from_bytes(&bytes)),
        Err(_) => Err(SeedError::InvalidUuid),
    }
}

/// The number that the first `n` characters spell in decimal digits, or
/// `None` where one of them is no digit.
pub open spec fn decimal_value(digits: Seq<char>, n: nat) -> Option<nat>
    decreases n,
{
    if n == 0 {
        Some(0nat)
    } else {
        let last = digits[n - 1];
        match decimal_value(digits, (n - 1) as nat) {
            Some(value) => if '0' <= last && last <= '9' {
                Some((10 * value + (last as nat - 48)) as nat)
            } else {
                None
            },
            None => None,
        }
    }
}

/// The digits of a number in text form: the text without a plus sign in
/// front of it.
pub open spec fn unsigned_part(text: Seq<char>) -> Seq<char> {
    if text.len() > 1 && text[0] == '+' {
        text.drop_first()
    } else {
        text
    }
}

/// The seed that a text spells: a number in decimal digits, with or without
/// a plus sign in front, that is at most the largest seed.  Any other text,
/// and the empty text, spells none.
pub open spec fn seed_of_text(text: Seq<char>) -> Option<u64> {
    let digits = unsigned_part(text);
    match decimal_value(digits, digits.len()) {
        Some(value) => if digits.len() > 0 && value <= u64::MAX {
            Some(value as u64)
        } else {
            None
        },
        None => None,
    }
}

/// The value of decimal digits grows with every digit.
proof fn lemma_decimal_value_grows(digits: Seq<char>, n: nat, m: nat)
    requires
        n <= m <= digits.len(),
        decimal_value(digits, m).is_some(),
    ensures
        decimal_value(digits, n).is_some(),
        decimal_value(digits, n).unwrap() <= decimal_value(digits, m).unwrap(),
    decreases m - n,
{
    if n < m {
        lemma_decimal_value_grows(digits, n, (m - 1) as nat);
    }
}

/// Where a start of the text is no number, the text is none.
proof fn lemma_decimal_value_fails(digits: Seq<char>, n: nat, m: nat)
    requires
        n <= m <= digits.len(),
        decimal_value(digits, n).is_none(),
    ensures
        decimal_value(digits, m).is_none(),
    decreases m - n,
{
    if n < m {
        lemma_decimal_value_fails(digits, n, (m - 1) as nat);
    }
}

/// Reads a seed from a text: a number in decimal digits, with or without a
/// plus sign in front.  A text that is no number, or a number beyond the
/// largest seed, gives none.
pub fn parse_seed(text: &str) -> (seed: Option<u64>)
    ensures
        seed == seed_of_text(text@),
{
    let length: usize = text.unicode_len();
    let start: usize = if length > 1 && text.get_char(0) == '+' {
        1
    } else {
        0
    };
    let ghost digits = unsigned_part(text@);
    if length == start {
        return None;
    }
    let mut value: u64 = 0;
    let mut i: usize = start;
    while i < length
        invariant
            start <= i <= length,
            length == text@.len(),
            digits == unsigned_part(text@),
            digits.len() == length - start,
            forall|k: int| 0 <= k < digits.len() ==> digits[k] == text@[k + start],
            decimal_value(digits, (i - start) as nat) == Some(value as nat),
        decreases length - i,
    {
        let c: char = text.get_char(i);
        if !(c >= '0' && c <= '9') {
            proof {
                assert(decimal_value(digits, (i - start + 1) as nat).is_none());
                lemma_decimal_value_fails(digits, (i - start + 1) as nat, digits.len());
            }
            return None;
        }
        let digit: u64 = (c as u8 - 48) as u64;
        if value > (u64::MAX - digit) / 10 {
            proof {
                let next = decimal_value(digits, (i - start + 1) as nat);
                assert(next == Some((10 * value + digit) as nat));
                assert(10 * value + digit > u64::MAX);
                if decimal_value(digits, digits.len()).is_some() {
                    lemma_decimal_value_grows(digits, (i - start + 1) as nat, digits.len());
                }
            }
            return None;
        }
        value = 10 * value + digit;
        i = i + 1;
    }
    Some(value)
}

/// The colours of the default palette, in order.
pub open spec fn default_colors() -> Seq<Seq<char>> {
    seq![
        "#4285F4"@,
        "#EA4335"@,
        "#FBBC05"@,
        "#34A853"@,
        "#9C27B0"@,
        "#00BCD4"@,
        "#FF9800"@,
        "#607D8B"@,
    ]
}

/// The default palette: blue, red, yellow, green, purple, cyan, orange and
/// blue grey.
pub fn default_color_palette() -> (palette: Vec<&'static str>)
    ensures
        palette@.len() == default_colors().len(),
        forall|i: int| 0 <= i < palette@.len() ==> (#[trigger] palette@[i])@ == default_colors()[i],
{
    let mut palette: Vec<&'static str> = Vec::new();
    palette.push("#4285F4");
    palette.push("#EA4335");
    palette.push("#FBBC05");
    palette.push("#34A853");
    palette.push("#9C27B0");
    palette.push("#00BCD4");
    palette.push("#FF9800");
    palette.push("#607D8B");
    palette
}

} // verus!
