//! Byte and text formats: decimal numbers, hexadecimal, JSON strings, and
//! comparison of texts through their UTF-8 bytes.
use vstd::prelude::*;
use vstd::utf8::*;

verus! {

broadcast use vstd::seq::group_seq_axioms;

// ---------------------------------------------------------------------------
// Decimal numbers
// ---------------------------------------------------------------------------

/// The ASCII decimal digits of `n`, most significant first, without leading zeros.
pub open spec fn decimal(n: nat) -> Seq<u8>
    decreases n,
{
    if n < 10 {
        seq![(48 + n) as u8]
    } else {
        decimal(n / 10).push((48 + n % 10) as u8)
    }
}

/// The ASCII decimal text of a signed number: a `-` before the digits of a negative one.
pub open spec fn signed_decimal(n: int) -> Seq<u8> {
    if n < 0 {
        seq![45u8] + decimal((-n) as nat)
    } else {
        decimal(n as nat)
    }
}

/// The number that ASCII decimal digits stand for, most significant first.
pub open spec fn decimal_value(digits: Seq<u8>) -> int
    decreases digits.len(),
{
    if digits.len() == 0 {
        0
    } else {
        10 * decimal_value(digits.drop_last()) + (digits.last() - 48)
    }
}

/// The decimal text of `n` is made of ASCII digits, starts with `0` only for zero
/// itself, and reads back as `n`.
pub proof fn lemma_decimal_reads_back(n: nat)
    ensures
        decimal(n).len() > 0,
        forall|i: int| 0 <= i < decimal(n).len() ==> 48 <= #[trigger] decimal(n)[i] <= 57,
        decimal(n)[0] == 48u8 ==> n == 0,
        decimal_value(decimal(n)) == n,
    decreases n,
{
    let d = decimal(n);
    if n >= 10 {
        lemma_decimal_reads_back(n / 10);
        assert(d.drop_last() =~= decimal(n / 10));
        assert(d.last() == 48 + n % 10);
        assert(n == 10 * (n / 10) + n % 10);
    } else {
        assert(d.drop_last() =~= Seq::<u8>::empty());
        assert(d.last() == 48 + n);
    }
    assert(decimal_value(d) == 10 * decimal_value(d.drop_last()) + (d.last() - 48));
}

/// The decimal text of a signed number starts with `-` exactly when the number is
/// negative; the digits after it read back as its magnitude.
pub proof fn lemma_signed_decimal_reads_back(n: int)
    ensures
        signed_decimal(n).len() > 0,
        signed_decimal(n)[0] == 45u8 <==> n < 0,
        n < 0 ==> decimal_value(signed_decimal(n).drop_first()) == -n,
        n >= 0 ==> decimal_value(signed_decimal(n)) == n,
{
    if n < 0 {
        lemma_decimal_reads_back((-n) as nat);
        assert(signed_decimal(n).drop_first() =~= decimal((-n) as nat));
    } else {
        lemma_decimal_reads_back(n as nat);
        assert(48 <= decimal(n as nat)[0] <= 57);
    }
}

/// Appends `bytes` to `out`.
pub fn append_bytes(out: &mut Vec<u8>, bytes: &[u8])
    ensures
        final(out)@ == old(out)@ + bytes@,
{
    let ghost start = out@;
    let mut i: usize = 0;
    while i < bytes.len()
        invariant
            i <= bytes@.len(),
            out@ == start + bytes@.take(i as int),
        decreases bytes@.len() - i,
    {
        out.push(bytes[i]);
        i += 1;
        assert(bytes@.take(i as int) =~= bytes@.take(i - 1).push(bytes@[i - 1]));
    }
    assert(bytes@.take(i as int) =~= bytes@);
}

/// Appends the decimal digits of `n` to `out`.
pub fn append_decimal(out: &mut Vec<u8>, n: u64)
    ensures
        final(out)@ == old(out)@ + decimal(n as nat),
    decreases n,
{
    if n >= 10 {
        append_decimal(out, n / 10);
    }
    let digit: u8 = (48 + n % 10) as u8;
    out.push(digit);
    if n < 10 {
        assert(old(out)@ + decimal(n as nat) =~= old(out)@.push(digit));
    } else {
        assert(old(out)@ + decimal(n as nat) =~= (old(out)@ + decimal((n / 10) as nat)).push(digit));
    }
}

/// Appends the decimal text of `n` to `out`, with a `-` before a negative number.
pub fn append_signed_decimal(out: &mut Vec<u8>, n: i64)
    ensures
        final(out)@ == old(out)@ + signed_decimal(n as int),
{
    if n < 0 {
        out.push(45u8);
        let magnitude: u64 = ((-(n + 1)) as u64) + 1;
        assert(magnitude as int == -(n as int));
        append_decimal(out, magnitude);
        assert(old(out)@ + signed_decimal(n as int) =~= old(out)@.push(45u8) + decimal(
            magnitude as nat,
        ));
    } else {
        append_decimal(out, n as u64);
    }
}

// ---------------------------------------------------------------------------
// Hexadecimal
// ---------------------------------------------------------------------------

/// The ASCII byte of the lower-case hexadecimal digit for `n` (0 to 15).
pub open spec fn hex_digit_byte(n: int) -> u8 {
    if n < 10 {
        (48 + n) as u8
    } else {
        (87 + n) as u8
    }
}

/// The lower-case hexadecimal digit for `n` (0 to 15).
pub open spec fn hex_digit(n: int) -> char {
    hex_digit_byte(n) as char
}

/// Each byte as two lower-case hexadecimal digits, the high nibble first.
pub open spec fn hex_encoding(bytes: Seq<u8>) -> Seq<char> {
    Seq::new(
        2 * bytes.len(),
        |i: int|
            if i % 2 == 0 {
                hex_digit((bytes[i / 2] / 16) as int)
            } else {
                hex_digit((bytes[i / 2] % 16) as int)
            },
    )
}

/// Whether a text is made of lower-case hexadecimal digits only.
pub open spec fn is_lower_hex(text: Seq<char>) -> bool {
    forall|i: int|
        0 <= i < text.len() ==> ('0' <= #[trigger] text[i] <= '9' || 'a' <= text[i] <= 'f')
}

/// The hexadecimal text of `n` bytes has `2 n` lower-case digits.
pub proof fn lemma_hex_encoding_shape(bytes: Seq<u8>)
    ensures
        hex_encoding(bytes).len() == 2 * bytes.len(),
        is_lower_hex(hex_encoding(bytes)),
{
    let h = hex_encoding(bytes);
    assert forall|i: int| 0 <= i < h.len() implies ('0' <= #[trigger] h[i] <= '9' || 'a' <= h[i] <= 'f') by {
        if i % 2 == 0 {
            lemma_hex_digit((bytes[i / 2] / 16) as int);
        } else {
            lemma_hex_digit((bytes[i / 2] % 16) as int);
        }
    }
}

/// The value of a hexadecimal digit, upper or lower case.
pub open spec fn hex_value(b: u8) -> Option<u8> {
    if 48 <= b <= 57 {
        Some((b - 48) as u8)
    } else if 97 <= b <= 102 {
        Some((b - 87) as u8)
    } else if 65 <= b <= 70 {
        Some((b - 55) as u8)
    } else {
        None
    }
}

/// The position of the first byte that is no hexadecimal digit.
pub open spec fn first_non_hex(bytes: Seq<u8>) -> Option<int>
    decreases bytes.len(),
{
    if bytes.len() == 0 {
        None
    } else if hex_value(bytes[0]) is None {
        Some(0)
    } else {
        match first_non_hex(bytes.drop_first()) {
            Some(k) => Some(k + 1),
            None => None,
        }
    }
}

/// Why a text is no hexadecimal encoding of bytes.
#[derive(Debug, Clone, Copy, PartialEq, Eq)]
pub enum HexError {
    /// The byte at `index` of the text, read as a character, is no hexadecimal digit.
    InvalidHexCharacter { c: char, index: usize },
    /// The text has an odd number of bytes.
    OddLength,
    /// The text does not fit a container of fixed size (never given for a `Vec`).
    InvalidStringLength,
}

/// Decoding of hexadecimal text given by its bytes: an odd length is refused
/// first, then the first byte that is no digit; otherwise every two digits
/// make one byte, the first digit high.
pub open spec fn hex_decoding(bytes: Seq<u8>) -> Result<Seq<u8>, HexError> {
    if bytes.len() % 2 != 0 {
        Err(HexError::OddLength)
    } else {
        match first_non_hex(bytes) {
            Some(k) => Err(HexError::InvalidHexCharacter { c: bytes[k] as char, index: k as usize }),
            None => Ok(
                Seq::new(
                    bytes.len() / 2,
                    |i: int|
                        (hex_value(bytes[2 * i])->0 * 16 + hex_value(bytes[2 * i + 1])->0) as u8,
                ),
            ),
        }
    }
}

proof fn lemma_hex_digit(n: int)
    requires
        0 <= n < 16,
    ensures
        hex_digit(n) as u8 == hex_digit_byte(n),
        hex_value(hex_digit_byte(n)) == Some(n as u8),
        '\0' <= hex_digit(n) <= '\u{7f}',
        '0' <= hex_digit(n) <= '9' || 'a' <= hex_digit(n) <= 'f',
{
}

proof fn lemma_all_hex_digits(bytes: Seq<u8>)
    requires
        forall|i: int| 0 <= i < bytes.len() ==> hex_value(#[trigger] bytes[i]) is Some,
    ensures
        first_non_hex(bytes) is None,
    decreases bytes.len(),
{
    if bytes.len() > 0 {
        assert(hex_value(bytes[0]) is Some);
        lemma_all_hex_digits(bytes.drop_first());
    }
}

/// The hexadecimal text of a byte sequence is pure ASCII, and its UTF-8 bytes are its characters.
pub proof fn lemma_hex_encoding_ascii(bytes: Seq<u8>)
    ensures
        is_ascii_chars(hex_encoding(bytes)),
        encode_utf8(hex_encoding(bytes)).len() == 2 * bytes.len(),
        forall|i: int|
            0 <= i < 2 * bytes.len() ==> #[trigger] encode_utf8(hex_encoding(bytes))[i]
                == hex_encoding(bytes)[i] as u8,
{
    let h = hex_encoding(bytes);
    assert forall|i: int| 0 <= i < h.len() implies '\0' <= #[trigger] h[i] <= '\u{7f}' by {
        if i % 2 == 0 {
            lemma_hex_digit((bytes[i / 2] / 16) as int);
        } else {
            lemma_hex_digit((bytes[i / 2] % 16) as int);
        }
    }
    is_ascii_chars_encode_utf8(h);
}

/// Decoding the hexadecimal text of any bytes gives those bytes back.
pub proof fn lemma_hex_round_trip(bytes: Seq<u8>)
    ensures
        hex_decoding(encode_utf8(hex_encoding(bytes))) == Ok::<Seq<u8>, HexError>(bytes),
{
    let h = hex_encoding(bytes);
    let e = encode_utf8(h);
    lemma_hex_encoding_ascii(bytes);
    assert forall|i: int| 0 <= i < e.len() implies hex_value(#[trigger] e[i]) is Some
        && hex_value(e[i])->0 == (if i % 2 == 0 {
        bytes[i / 2] / 16
    } else {
        bytes[i / 2] % 16
    }) by {
        assert(e[i] == h[i] as u8);
        if i % 2 == 0 {
            lemma_hex_digit((bytes[i / 2] / 16) as int);
        } else {
            lemma_hex_digit((bytes[i / 2] % 16) as int);
        }
    }
    lemma_all_hex_digits(e);
    assert(e.len() % 2 == 0);
    let decoded = Seq::new(
        e.len() / 2,
        |i: int| (hex_value(e[2 * i])->0 * 16 + hex_value(e[2 * i + 1])->0) as u8,
    );
    assert forall|i: int| 0 <= i < bytes.len() implies decoded[i] == bytes[i] by {
        assert(hex_value(e[2 * i]) is Some);
        assert(hex_value(e[2 * i + 1]) is Some);
        assert((2 * i) % 2 == 0 && (2 * i) / 2 == i);
        assert((2 * i + 1) % 2 == 1 && (2 * i + 1) / 2 == i);
    }
    assert(decoded =~= bytes);
}

/// Different bytes have different hexadecimal texts.
pub proof fn lemma_hex_encoding_injective(a: Seq<u8>, b: Seq<u8>)
    requires
        hex_encoding(a) == hex_encoding(b),
    ensures
        a == b,
{
    lemma_hex_round_trip(a);
    lemma_hex_round_trip(b);
}

/// `hex::encode`: the bytes as lower-case hexadecimal text, two digits per byte,
/// high nibble first, as the crate's encoding table gives them.
#[verifier::external_body]
pub(crate) fn hex_encode(data: &[u8]) -> (res: String)
    ensures
        res@ == hex_encoding(data@),
{
    hex::encode(data)
}

/// `hex::decode` on the bytes of `text`: odd length first refused, then the first
/// byte that is no digit of either case (with its position); otherwise the decoded bytes.
#[verifier::external_body]
pub(crate) fn hex_decode(text: &str) -> (res: Result<Vec<u8>, HexError>)
    ensures
        match res {
            Ok(v) => hex_decoding(encode_utf8(text@)) == Ok::<Seq<u8>, HexError>(v@),
            Err(e) => hex_decoding(encode_utf8(text@)) == Err::<Seq<u8>, HexError>(e),
        },
{
    match hex::decode(text) {
        Ok(v) => Ok(v),
        Err(hex::FromHexError::InvalidHexCharacter { c, index }) => Err(
            HexError::InvalidHexCharacter { c, index },
        ),
        Err(hex::FromHexError::OddLength) => Err(HexError::OddLength),
        Err(hex::FromHexError::InvalidStringLength) => Err(HexError::InvalidStringLength),
    }
}


// ---------------------------------------------------------------------------
// JSON strings
// ---------------------------------------------------------------------------

/// How one byte of a string stands inside a JSON string literal: the quote and the
/// backslash get a backslash, the usual control characters their short escapes,
/// the other control bytes `\u00XX` with lower-case digits; every other byte stands as it is.
pub open spec fn json_escape_byte(b: u8) -> Seq<u8> {
    if b == 34 {
        seq![92u8, 34u8]
    } else if b == 92 {
        seq![92u8, 92u8]
    } else if b == 8 {
        seq![92u8, 98u8]
    } else if b == 9 {
        seq![92u8, 116u8]
    } else if b == 10 {
        seq![92u8, 110u8]
    } else if b == 12 {
        seq![92u8, 102u8]
    } else if b == 13 {
        seq![92u8, 114u8]
    } else if b < 32 {
        seq![92u8, 117u8, 48u8, 48u8, hex_digit_byte((b / 16) as int), hex_digit_byte((b % 16) as int)]
    } else {
        seq![b]
    }
}

/// The bytes of a string with every byte escaped for a JSON string literal.
pub open spec fn json_escape(bytes: Seq<u8>) -> Seq<u8>
    decreases bytes.len(),
{
    if bytes.len() == 0 {
        Seq::empty()
    } else {
        json_escape(bytes.drop_last()) + json_escape_byte(bytes.last())
    }
}

/// A text as a JSON string literal: its escaped UTF-8 bytes between double quotes.
pub open spec fn json_string(text: Seq<char>) -> Seq<u8> {
    seq![34u8] + json_escape(encode_utf8(text)) + seq![34u8]
}

/// Escaping works byte by byte: the escape of two byte strings one after the other
/// is the escape of the first followed by the escape of the second.
pub proof fn lemma_json_escape_concatenation(first: Seq<u8>, second: Seq<u8>)
    ensures
        json_escape(first + second) == json_escape(first) + json_escape(second),
    decreases second.len(),
{
    if second.len() == 0 {
        assert(first + second =~= first);
        assert(json_escape(first) + json_escape(second) =~= json_escape(first));
    } else {
        lemma_json_escape_concatenation(first, second.drop_last());
        assert((first + second).drop_last() =~= first + second.drop_last());
        assert((first + second).last() == second.last());
        assert(json_escape(first) + json_escape(second.drop_last()) + json_escape_byte(second.last())
            =~= json_escape(first) + (json_escape(second.drop_last()) + json_escape_byte(
            second.last(),
        )));
    }
}

/// An escaped string holds no control byte, and bytes that are neither a control
/// byte, the quote nor the backslash stand for themselves.
pub proof fn lemma_json_escape_shape(bytes: Seq<u8>)
    ensures
        forall|i: int| 0 <= i < json_escape(bytes).len() ==> #[trigger] json_escape(bytes)[i] >= 32,
        (forall|i: int| 0 <= i < bytes.len() ==> {
            &&& #[trigger] bytes[i] >= 32
            &&& bytes[i] != 34
            &&& bytes[i] != 92
        }) ==> json_escape(bytes) == bytes,
    decreases bytes.len(),
{
    if bytes.len() > 0 {
        let rest = bytes.drop_last();
        let b = bytes.last();
        lemma_json_escape_shape(rest);
        let e = json_escape_byte(b);
        if b < 32 && b != 8 && b != 9 && b != 10 && b != 12 && b != 13 {
            lemma_hex_digit((b / 16) as int);
            lemma_hex_digit((b % 16) as int);
        }
        assert forall|i: int| 0 <= i < e.len() implies #[trigger] e[i] >= 32 by {}
        let whole = json_escape(bytes);
        assert(whole == json_escape(rest) + e);
        assert forall|i: int| 0 <= i < whole.len() implies #[trigger] whole[i] >= 32 by {
            if i < json_escape(rest).len() {
                assert(whole[i] == json_escape(rest)[i]);
            } else {
                assert(whole[i] == e[i - json_escape(rest).len()]);
            }
        }
        if forall|i: int| 0 <= i < bytes.len() ==> {
            &&& #[trigger] bytes[i] >= 32
            &&& bytes[i] != 34
            &&& bytes[i] != 92
        } {
            assert forall|i: int| 0 <= i < rest.len() implies {
                &&& #[trigger] rest[i] >= 32
                &&& rest[i] != 34
                &&& rest[i] != 92
            } by {
                assert(rest[i] == bytes[i]);
            }
            assert(bytes[bytes.len() - 1] == b);
            assert(json_escape(bytes) =~= rest.push(b));
            assert(rest.push(b) =~= bytes);
        }
    }
}

/// `serde_json::to_vec` on a string: its JSON string literal, as the crate's
/// `format_escaped_str` writes it (escape table `ESCAPE`, `\u00XX` with lower-case
/// digits). Serialising a string cannot fail, so the `unwrap` never panics.
#[verifier::external_body]
fn json_string_bytes(text: &str) -> (res: Vec<u8>)
    ensures
        res@ == json_string(text@),
{
    serde_json::to_vec(text).unwrap()
}

/// Appends `text` as a JSON string literal to `out`.
pub fn append_json_string(out: &mut Vec<u8>, text: &str)
    ensures
        final(out)@ == old(out)@ + json_string(text@),
{
    let literal = json_string_bytes(text);
    append_bytes(out, literal.as_slice());
}

// ---------------------------------------------------------------------------
// Texts
// ---------------------------------------------------------------------------

/// Whether two texts are the same, decided on their UTF-8 bytes.
pub fn same_text(a: &str, b: &str) -> (res: bool)
    ensures
        res == (a@ == b@),
{
    let x = a.as_bytes();
    let y = b.as_bytes();
    proof {
        encode_utf8_decode_utf8(a@);
        encode_utf8_decode_utf8(b@);
    }
    if x.len() != y.len() {
        return false;
    }
    let mut i: usize = 0;
    while i < x.len()
        invariant
            i <= x@.len(),
            x@.len() == y@.len(),
            x@ == encode_utf8(a@),
            y@ == encode_utf8(b@),
            forall|j: int| 0 <= j < i ==> x@[j] == y@[j],
        decreases x@.len() - i,
    {
        if x[i] != y[i] {
            return false;
        }
        i += 1;
    }
    assert(x@ =~= y@);
    true
}

// ---------------------------------------------------------------------------
// Base58
// ---------------------------------------------------------------------------

/// The digit `d` (0 to 57) of the Bitcoin Base58 alphabet
/// `123456789ABCDEFGHJKLMNPQRSTUVWXYZabcdefghijkmnopqrstuvwxyz`.
pub open spec fn base58_char(d: int) -> char {
    if d < 9 {
        (49 + d) as char
    } else if d < 17 {
        (56 + d) as char
    } else if d < 22 {
        (57 + d) as char
    } else if d < 33 {
        (58 + d) as char
    } else if d < 44 {
        (64 + d) as char
    } else {
        (65 + d) as char
    }
}

/// Whether a character belongs to the Bitcoin Base58 alphabet.
pub open spec fn is_base58_char(c: char) -> bool {
    ||| '1' <= c <= '9'
    ||| 'A' <= c <= 'H'
    ||| 'J' <= c <= 'N'
    ||| 'P' <= c <= 'Z'
    ||| 'a' <= c <= 'k'
    ||| 'm' <= c <= 'z'
}

/// The number that bytes stand for, most significant first.
pub open spec fn big_endian_value(bytes: Seq<u8>) -> nat
    decreases bytes.len(),
{
    if bytes.len() == 0 {
        0
    } else {
        big_endian_value(bytes.drop_last()) * 256 + bytes.last() as nat
    }
}

/// The Base58 digits of a number, most significant first; none for zero.
pub open spec fn base58_digits(n: nat) -> Seq<char>
    decreases n,
{
    if n == 0 {
        Seq::empty()
    } else {
        base58_digits(n / 58).push(base58_char((n % 58) as int))
    }
}

/// How many zero bytes a byte sequence starts with.
pub open spec fn leading_zero_bytes(bytes: Seq<u8>) -> nat
    decreases bytes.len(),
{
    if bytes.len() > 0 && bytes[0] == 0 {
        1 + leading_zero_bytes(bytes.drop_first())
    } else {
        0
    }
}

/// Base58 text (Bitcoin alphabet): a `1` for each leading zero byte, then the
/// Base58 digits of the number the bytes stand for.
pub open spec fn base58_text(data: Seq<u8>) -> Seq<char> {
    Seq::new(leading_zero_bytes(data), |i: int| '1') + base58_digits(big_endian_value(data))
}

/// Natural powers.
pub open spec fn power(b: nat, e: nat) -> nat
    decreases e,
{
    if e == 0 {
        1
    } else {
        b * power(b, (e - 1) as nat)
    }
}

proof fn lemma_base58_char(d: int)
    requires
        0 <= d < 58,
    ensures
        is_base58_char(base58_char(d)),
{
}

proof fn lemma_base58_digits_alphabet(n: nat)
    ensures
        forall|i: int|
            0 <= i < base58_digits(n).len() ==> is_base58_char(#[trigger] base58_digits(n)[i]),
    decreases n,
{
    if n > 0 {
        lemma_base58_digits_alphabet(n / 58);
        lemma_base58_char((n % 58) as int);
        let prev = base58_digits(n / 58);
        assert forall|i: int|
            0 <= i < base58_digits(n).len() implies is_base58_char(#[trigger] base58_digits(n)[i]) by {
            if i < prev.len() {
                assert(base58_digits(n)[i] == prev[i]);
            }
        }
    }
}

proof fn lemma_zero_value(bytes: Seq<u8>)
    requires
        big_endian_value(bytes) == 0,
    ensures
        forall|i: int| 0 <= i < bytes.len() ==> #[trigger] bytes[i] == 0,
    decreases bytes.len(),
{
    if bytes.len() > 0 {
        lemma_zero_value(bytes.drop_last());
        assert forall|i: int| 0 <= i < bytes.len() implies #[trigger] bytes[i] == 0 by {
            if i < bytes.len() - 1 {
                assert(bytes[i] == bytes.drop_last()[i]);
            }
        }
    }
}

proof fn lemma_all_zero_leading(bytes: Seq<u8>)
    requires
        forall|i: int| 0 <= i < bytes.len() ==> #[trigger] bytes[i] == 0,
    ensures
        leading_zero_bytes(bytes) == bytes.len(),
    decreases bytes.len(),
{
    if bytes.len() > 0 {
        assert forall|i: int| 0 <= i < bytes.drop_first().len() implies #[trigger] bytes.drop_first()[i]
            == 0 by {
            assert(bytes.drop_first()[i] == bytes[i + 1]);
        }
        lemma_all_zero_leading(bytes.drop_first());
    }
}

proof fn lemma_zero_first_value(bytes: Seq<u8>)
    requires
        bytes.len() > 0,
        bytes[0] == 0,
    ensures
        big_endian_value(bytes) == big_endian_value(bytes.drop_first()),
    decreases bytes.len(),
{
    if bytes.len() == 1 {
        assert(big_endian_value(bytes.drop_last()) == 0);
        assert(big_endian_value(bytes.drop_first()) == 0);
        assert(bytes.last() == 0);
    } else {
        assert(bytes.drop_last()[0] == 0);
        lemma_zero_first_value(bytes.drop_last());
        assert(bytes.drop_first().drop_last() =~= bytes.drop_last().drop_first());
        assert(bytes.drop_first().last() == bytes.last());
        assert(big_endian_value(bytes.drop_first()) == big_endian_value(
            bytes.drop_first().drop_last(),
        ) * 256 + bytes.drop_first().last() as nat);
    }
}

proof fn lemma_leading_zeros_value(bytes: Seq<u8>)
    ensures
        leading_zero_bytes(bytes) <= bytes.len(),
        big_endian_value(bytes) == big_endian_value(bytes.skip(leading_zero_bytes(bytes) as int)),
    decreases bytes.len(),
{
    if bytes.len() > 0 && bytes[0] == 0 {
        lemma_leading_zeros_value(bytes.drop_first());
        lemma_zero_first_value(bytes);
        let k = leading_zero_bytes(bytes);
        assert(bytes.drop_first().skip(k - 1) =~= bytes.skip(k as int));
    } else {
        assert(bytes.skip(0) =~= bytes);
    }
}

proof fn lemma_value_bound(bytes: Seq<u8>)
    ensures
        big_endian_value(bytes) < power(256, bytes.len()),
    decreases bytes.len(),
{
    if bytes.len() > 0 {
        lemma_value_bound(bytes.drop_last());
        let v = big_endian_value(bytes.drop_last());
        let p = power(256, bytes.drop_last().len());
        let last = bytes.last();
        assert(v * 256 + last < p * 256) by (nonlinear_arith)
            requires
                v < p,
                last < 256,
        ;
    }
}

proof fn lemma_digits_length(n: nat, m: nat)
    requires
        n < power(58, m),
    ensures
        base58_digits(n).len() <= m,
    decreases n,
{
    if n > 0 {
        assert(m > 0);
        let p = power(58, (m - 1) as nat);
        assert(n / 58 < p) by (nonlinear_arith)
            requires
                n < 58 * p,
        ;
        lemma_digits_length(n / 58, (m - 1) as nat);
    }
}

proof fn lemma_power_adds(b: nat, x: nat, y: nat)
    ensures
        power(b, x + y) == power(b, x) * power(b, y),
    decreases x,
{
    if x > 0 {
        lemma_power_adds(b, (x - 1) as nat, y);
        assert((x - 1) as nat + y == (x + y - 1) as nat);
        let p = power(b, (x - 1) as nat);
        let q = power(b, y);
        assert(power(b, x) == b * p);
        assert(power(b, x + y) == b * power(b, (x + y - 1) as nat));
        assert(b * (p * q) == (b * p) * q) by (nonlinear_arith);
    } else {
        assert(power(b, 0) == 1);
        assert(x + y == y);
    }
}

proof fn lemma_power_of_product(a: nat, b: nat, e: nat)
    ensures
        power(a * b, e) == power(a, e) * power(b, e),
    decreases e,
{
    if e > 0 {
        lemma_power_of_product(a, b, (e - 1) as nat);
        let c: nat = a * b;
        let p = power(a, (e - 1) as nat);
        let q = power(b, (e - 1) as nat);
        let r = power(c, (e - 1) as nat);
        let pa = power(a, e);
        let pb = power(b, e);
        let pc = power(c, e);
        assert(pc == pa * pb) by (nonlinear_arith)
            requires
                r == p * q,
                pa == a * p,
                pb == b * q,
                pc == c * r,
                c == a * b,
        ;
        assert(power(a * b, e) == pc);
    } else {
        let pa = power(a, e);
        let pb = power(b, e);
        assert(pa == 1 && pb == 1 && power(a * b, e) == 1);
        assert(pa * pb == 1) by (nonlinear_arith)
            requires
                pa == 1,
                pb == 1,
        ;
    }
}

proof fn lemma_power_base_monotone(a: nat, b: nat, e: nat)
    requires
        a <= b,
    ensures
        power(a, e) <= power(b, e),
    decreases e,
{
    if e > 0 {
        lemma_power_base_monotone(a, b, (e - 1) as nat);
        let p = power(a, (e - 1) as nat);
        let q = power(b, (e - 1) as nat);
        assert(a * p <= b * q) by (nonlinear_arith)
            requires
                a <= b,
                p <= q,
        ;
    }
}

proof fn lemma_power_exponent_monotone(b: nat, x: nat, y: nat)
    requires
        b >= 1,
        x <= y,
    ensures
        power(b, x) <= power(b, y),
    decreases y,
{
    if x < y {
        lemma_power_exponent_monotone(b, x, (y - 1) as nat);
        let p = power(b, (y - 1) as nat);
        assert(p <= b * p) by (nonlinear_arith)
            requires
                b >= 1,
        ;
    }
}

/// `j` bytes have at most `j + 8` Base58 digits, for up to 20 bytes.
proof fn lemma_bytes_within_base58_digits(j: nat)
    requires
        j <= 20,
    ensures
        power(256, j) <= power(58, j + 8),
{
    lemma_power_base_monotone(256, 290, j);
    lemma_power_of_product(58, 5, j);
    lemma_power_exponent_monotone(5, j, 20);
    assert(power(5, 20) <= power(58, 8)) by {
        reveal_with_fuel(power, 21);
    }
    lemma_power_adds(58, j, 8);
    let a = power(58, j);
    let b = power(5, j);
    let c = power(5, 20);
    let d = power(58, 8);
    assert(a * b <= a * d) by (nonlinear_arith)
        requires
            b <= c,
            c <= d,
    ;
}

/// The Base58 text of 20 bytes has 1 to 28 characters, all from the alphabet.
pub proof fn lemma_base58_of_20_bytes(data: Seq<u8>)
    requires
        data.len() == 20,
    ensures
        1 <= base58_text(data).len() <= 28,
        forall|i: int|
            0 <= i < base58_text(data).len() ==> is_base58_char(#[trigger] base58_text(data)[i]),
{
    let t = base58_text(data);
    let k = leading_zero_bytes(data);
    let v = big_endian_value(data);
    lemma_base58_digits_alphabet(v);
    assert forall|i: int| 0 <= i < t.len() implies is_base58_char(#[trigger] t[i]) by {
        if i >= k {
            assert(t[i] == base58_digits(v)[i - k]);
        }
    }
    lemma_leading_zeros_value(data);
    let rest = data.skip(k as int);
    lemma_value_bound(rest);
    lemma_bytes_within_base58_digits((20 - k) as nat);
    assert((20 - k) as nat + 8 == (28 - k) as nat);
    lemma_digits_length(v, (28 - k) as nat);
    if v == 0 {
        lemma_zero_value(data);
        lemma_all_zero_leading(data);
    } else {
        assert(base58_digits(v).len() >= 1);
    }
}

} // verus!
