//! The base-4 codec: every byte becomes four symbols, most significant digit first.

use vstd::prelude::*;
use vstd::string::StringExecFns;
use crate::alphabet::{
    char_val, get_char_val, is_symbol, lemma_char_val_inverts_symbol, lemma_char_val_of_symbol,
    symbol,
};
use crate::error::CodecError;

verus! {

/// The `k`-th base-4 digit of `byte`, counted from the most significant one.
pub open spec fn quad(byte: u8, k: int) -> int
    recommends
        0 <= k < 4,
{
    if k == 0 {
        byte as int / 64
    } else if k == 1 {
        byte as int / 16 % 4
    } else if k == 2 {
        byte as int / 4 % 4
    } else {
        byte as int % 4
    }
}

/// The encoding of `bytes`: four symbols for each byte, in the order of the bytes.
pub open spec fn encode(bytes: Seq<u8>) -> Seq<char> {
    Seq::new(4 * bytes.len(), |i: int| symbol(quad(bytes[i / 4], i % 4)))
}

/// Whether every character of `s` is one of the four symbols.
pub open spec fn all_symbols(s: Seq<char>) -> bool {
    forall|i: int| 0 <= i < s.len() ==> is_symbol(#[trigger] s[i])
}

/// The digit that the character at `i` stands for.
pub open spec fn digit_at(s: Seq<char>, i: int) -> int {
    char_val(s[i]).unwrap() as int
}

/// The byte that the `j`-th group of four symbols of `s` spells out.
pub open spec fn byte_at(s: Seq<char>, j: int) -> u8 {
    (64 * digit_at(s, 4 * j) + 16 * digit_at(s, 4 * j + 1) + 4 * digit_at(s, 4 * j + 2)
        + digit_at(s, 4 * j + 3)) as u8
}

/// What `s` decodes to.
///
/// A length that is no multiple of four is a truncated group, whatever the characters
/// are. Otherwise one character outside the alphabet makes the whole input invalid.
/// Otherwise each group of four symbols gives one byte.
pub open spec fn decode(s: Seq<char>) -> Result<Seq<u8>, CodecError> {
    if s.len() % 4 != 0 {
        Err(CodecError::TruncatedGroup)
    } else if !all_symbols(s) {
        Err(CodecError::InvalidSymbol)
    } else {
        Ok(Seq::new(s.len() / 4, |j: int| byte_at(s, j)))
    }
}

/// The outcome of a decoding, with the bytes as a sequence.
pub open spec fn decoded_view(res: Result<Vec<u8>, CodecError>) -> Result<Seq<u8>, CodecError> {
    match res {
        Ok(bytes) => Ok(bytes@),
        Err(e) => Err(e),
    }
}

/// An encoding holds nothing but symbols.
pub proof fn lemma_encode_all_symbols(bytes: Seq<u8>)
    ensures
        all_symbols(encode(bytes)),
{
    let s = encode(bytes);
    assert forall|i: int| 0 <= i < s.len() implies is_symbol(#[trigger] s[i]) by {
        lemma_quads_of_byte(bytes[i / 4]);
        lemma_char_val_of_symbol(quad(bytes[i / 4], i % 4));
    }
}

/// The four digits of a byte are digits, and spell the byte out again.
pub proof fn lemma_quads_of_byte(byte: u8)
    ensures
        forall|k: int| 0 <= k < 4 ==> 0 <= #[trigger] quad(byte, k) < 4,
        64 * quad(byte, 0) + 16 * quad(byte, 1) + 4 * quad(byte, 2) + quad(byte, 3) == byte,
{
}

/// The byte that four digits spell out has these four digits.
pub proof fn lemma_quads_of_digits(d0: int, d1: int, d2: int, d3: int)
    requires
        0 <= d0 < 4,
        0 <= d1 < 4,
        0 <= d2 < 4,
        0 <= d3 < 4,
    ensures
        0 <= 64 * d0 + 16 * d1 + 4 * d2 + d3 < 256,
        quad((64 * d0 + 16 * d1 + 4 * d2 + d3) as u8, 0) == d0,
        quad((64 * d0 + 16 * d1 + 4 * d2 + d3) as u8, 1) == d1,
        quad((64 * d0 + 16 * d1 + 4 * d2 + d3) as u8, 2) == d2,
        quad((64 * d0 + 16 * d1 + 4 * d2 + d3) as u8, 3) == d3,
{
}

/// The `j`-th group of an encoding holds the symbols of the digits of the `j`-th byte.
proof fn lemma_group_of_encoding(bytes: Seq<u8>, j: int, k: int)
    requires
        0 <= j < bytes.len(),
        0 <= k < 4,
    ensures
        encode(bytes)[4 * j + k] == symbol(quad(bytes[j], k)),
        digit_at(encode(bytes), 4 * j + k) == quad(bytes[j], k),
{
    assert((4 * j + k) / 4 == j);
    assert((4 * j + k) % 4 == k);
    lemma_quads_of_byte(bytes[j]);
    lemma_char_val_of_symbol(quad(bytes[j], k));
}

/// Decoding undoes encoding: every byte sequence comes back from its encoding unchanged.
pub proof fn lemma_decode_encode(bytes: Seq<u8>)
    ensures
        decode(encode(bytes)) == Ok::<Seq<u8>, CodecError>(bytes),
{
    let s = encode(bytes);
    lemma_encode_all_symbols(bytes);
    assert forall|j: int| 0 <= j < bytes.len() implies byte_at(s, j) == bytes[j] by {
        lemma_group_of_encoding(bytes, j, 0);
        lemma_group_of_encoding(bytes, j, 1);
        lemma_group_of_encoding(bytes, j, 2);
        lemma_group_of_encoding(bytes, j, 3);
        lemma_quads_of_byte(bytes[j]);
    }
    assert(Seq::new(s.len() / 4, |j: int| byte_at(s, j)) =~= bytes);
}

/// Encoding undoes decoding: only the encoding of a byte sequence decodes to it.
pub proof fn lemma_encode_decode(s: Seq<char>)
    requires
        decode(s) is Ok,
    ensures
        encode(decode(s)->Ok_0) == s,
{
    let bytes = decode(s)->Ok_0;
    let again = encode(bytes);
    assert forall|i: int| 0 <= i < s.len() implies again[i] == s[i] by {
        let j = i / 4;
        let k = i % 4;
        assert(i == 4 * j + k);
        assert(is_symbol(s[4 * j]) && is_symbol(s[4 * j + 1]) && is_symbol(s[4 * j + 2])
            && is_symbol(s[4 * j + 3]));
        assert(bytes[j] == byte_at(s, j));
        lemma_quads_of_digits(
            digit_at(s, 4 * j),
            digit_at(s, 4 * j + 1),
            digit_at(s, 4 * j + 2),
            digit_at(s, 4 * j + 3),
        );
        assert(quad(bytes[j], k) == digit_at(s, i));
        lemma_char_val_inverts_symbol(s[i], digit_at(s, i));
    }
    assert(again =~= s);
}

/// A group of four that starts with a character outside the alphabet is an invalid
/// symbol, whatever symbols follow it.
pub proof fn lemma_foreign_character_detected(x: char, a: char, b: char, c: char)
    requires
        !is_symbol(x),
        is_symbol(a),
        is_symbol(b),
        is_symbol(c),
    ensures
        decode(seq![x, a, b, c]) == Err::<Seq<u8>, CodecError>(CodecError::InvalidSymbol),
{
    let s = seq![x, a, b, c];
    assert(s[0] == x);
}

/// The text of one symbol.
fn symbol_str(digit: u8) -> (s: &'static str)
    requires
        digit < 4,
    ensures
        s@ == seq![symbol(digit as int)],
{
    proof {
        reveal_strlit("\u{200B}");
        reveal_strlit("\u{200C}");
        reveal_strlit("\u{200D}");
        reveal_strlit("\u{2060}");
    }
    let s = if digit == 0 {
        "\u{200B}"
    } else if digit == 1 {
        "\u{200C}"
    } else if digit == 2 {
        "\u{200D}"
    } else {
        "\u{2060}"
    };
    assert(s@ =~= seq![symbol(digit as int)]);
    s
}

/// Encodes bytes as invisible text.
///
/// The result holds four symbols for each byte of `input`, so it is empty exactly when
/// `input` is.
pub fn to_base_4(input: &[u8]) -> (res: String)
    ensures
        res@ == encode(input@),
        res@.len() == 4 * input@.len(),
{
    let mut res = String::new();
    let mut i: usize = 0;
    while i < input.len()
        invariant
            i <= input@.len(),
            res@ == encode(input@).take(4 * i),
        decreases input@.len() - i,
    {
        let n: u8 = input[i];
        let q0: u8 = (n & 0b11000000) >> 6;
        let q1: u8 = (n & 0b00110000) >> 4;
        let q2: u8 = (n & 0b00001100) >> 2;
        let q3: u8 = n & 0b00000011;
        assert(q0 == n / 64 && q1 == n / 16 % 4 && q2 == n / 4 % 4 && q3 == n % 4) by (bit_vector)
            requires
                q0 == (n & 0b11000000) >> 6,
                q1 == (n & 0b00110000) >> 4,
                q2 == (n & 0b00001100) >> 2,
                q3 == n & 0b00000011,
        ;
        res.append(symbol_str(q0));
        res.append(symbol_str(q1));
        res.append(symbol_str(q2));
        res.append(symbol_str(q3));
        proof {
            let all = encode(input@);
            let k = 4 * i;
            assert((k + 0) / 4 == i && (k + 0) % 4 == 0);
            assert((k + 1) / 4 == i && (k + 1) % 4 == 1);
            assert((k + 2) / 4 == i && (k + 2) % 4 == 2);
            assert((k + 3) / 4 == i && (k + 3) % 4 == 3);
            assert(res@ =~= all.take(k + 4));
        }
        i += 1;
    }
    assert(res@ =~= encode(input@));
    res
}

/// Decodes a slice of characters.
pub fn decode_symbols(symbols: &[char]) -> (res: Result<Vec<u8>, CodecError>)
    ensures
        decoded_view(res) == decode(symbols@),
{
    let n = symbols.len();
    if n % 4 != 0 {
        return Err(CodecError::TruncatedGroup);
    }
    let mut bytes: Vec<u8> = Vec::new();
    let mut i: usize = 0;
    while i < n
        invariant
            n == symbols@.len(),
            n % 4 == 0,
            i % 4 == 0,
            i <= n,
            forall|m: int| 0 <= m < i ==> is_symbol(#[trigger] symbols@[m]),
            bytes@.len() == i / 4,
            forall|j: int| 0 <= j < bytes@.len() ==> bytes@[j] == byte_at(symbols@, j),
        decreases n - i,
    {
        let v0 = match get_char_val(symbols[i]) {
            Ok(digit) => digit,
            Err(e) => {
                return Err(e);
            },
        };
        let v1 = match get_char_val(symbols[i + 1]) {
            Ok(digit) => digit,
            Err(e) => {
                return Err(e);
            },
        };
        let v2 = match get_char_val(symbols[i + 2]) {
            Ok(digit) => digit,
            Err(e) => {
                return Err(e);
            },
        };
        let v3 = match get_char_val(symbols[i + 3]) {
            Ok(digit) => digit,
            Err(e) => {
                return Err(e);
            },
        };
        assert((v0 << 6) == 64 * v0 && (v1 << 4) == 16 * v1 && (v2 << 2) == 4 * v2) by (bit_vector)
            requires
                v0 < 4,
                v1 < 4,
                v2 < 4,
        ;
        let byte: u8 = (v0 << 6) + (v1 << 4) + (v2 << 2) + v3;
        assert(byte == byte_at(symbols@, i as int / 4));
        bytes.push(byte);
        i += 4;
    }
    assert(bytes@ =~= Seq::new(symbols@.len() / 4, |j: int| byte_at(symbols@, j)));
    Ok(bytes)
}

/// Decodes invisible text back into bytes.
///
/// Fails with `TruncatedGroup` if the number of characters is no multiple of four.
/// Otherwise fails with `InvalidSymbol` if a character is none of the four symbols.
/// Otherwise returns one byte for each group of four symbols.
pub fn from_base_4(input: &str) -> (res: Result<Vec<u8>, CodecError>)
    ensures
        decoded_view(res) == decode(input@),
        input@.len() % 4 != 0 ==> res == Err::<Vec<u8>, CodecError>(CodecError::TruncatedGroup),
        input@.len() % 4 == 0 && !all_symbols(input@) ==> res == Err::<Vec<u8>, CodecError>(
            CodecError::InvalidSymbol,
        ),
        input@.len() % 4 == 0 && all_symbols(input@) ==> res is Ok,
{
    let symbols = to_chars(input);
    decode_symbols(symbols.as_slice())
}

/// The characters of a text, one by one.
pub fn to_chars(text: &str) -> (chars: Vec<char>)
    ensures
        chars@ == text@,
{
    let mut chars: Vec<char> = Vec::new();
    for c in it: text.chars()
        invariant
            chars@ == it.seq().take(it.index()),
    {
        chars.push(c);
    }
    chars
}

} // verus!
