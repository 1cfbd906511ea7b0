use text_occlusion::alphabet::{
    get_char_val, BASE_4_CODES, HAIR_SPACE, WORD_JOINER, ZERO_WIDTH_JOINER, ZERO_WIDTH_NON_JOINER,
    ZERO_WIDTH_SPACE, ZONE_CODE,
};
use text_occlusion::codec::{decode_symbols, from_base_4, to_base_4, to_chars};
use text_occlusion::error::CodecError;

#[test]
fn test_encoding() {
    let encoded = to_base_4("Hidden text".as_bytes());
    assert_eq!(encoded, "‌​‍​‌‍‍‌‌‍‌​‌‍‌​‌‍‌‌‌‍⁠‍​‍​​‌⁠‌​‌‍‌‌‌⁠‍​‌⁠‌​");
}

#[test]
fn test_decoding() {
    let decoded = String::from_utf8(from_base_4("‌​‍​‌‍‍‌‌‍‌​‌‍‌​‌‍‌‌‌‍⁠‍​‍​​‌⁠‌​‌‍‌‌‌⁠‍​‌⁠‌​").unwrap()).unwrap();
    assert_eq!(decoded, "Hidden text");
}

#[test]
fn alphabet_and_flag_are_the_documented_code_points() {
    assert_eq!(BASE_4_CODES, ['\u{200B}', '\u{200C}', '\u{200D}', '\u{2060}']);
    assert_eq!(ZONE_CODE, ['\u{200B}', '\u{200A}', '\u{200B}']);
    assert_eq!(HAIR_SPACE, '\u{200A}');
    assert_eq!(ZERO_WIDTH_SPACE, '\u{200B}');
    assert_eq!(ZERO_WIDTH_NON_JOINER, '\u{200C}');
    assert_eq!(ZERO_WIDTH_JOINER, '\u{200D}');
    assert_eq!(WORD_JOINER, '\u{2060}');
}

#[test]
fn char_val_of_each_symbol_is_its_index() {
    assert_eq!(get_char_val('\u{200B}'), Ok(0));
    assert_eq!(get_char_val('\u{200C}'), Ok(1));
    assert_eq!(get_char_val('\u{200D}'), Ok(2));
    assert_eq!(get_char_val('\u{2060}'), Ok(3));
    for (index, symbol) in BASE_4_CODES.iter().enumerate() {
        assert_eq!(get_char_val(*symbol), Ok(index as u8));
    }
}

#[test]
fn char_val_rejects_what_is_no_symbol() {
    assert_eq!(get_char_val('a'), Err(CodecError::InvalidSymbol));
    assert_eq!(get_char_val(' '), Err(CodecError::InvalidSymbol));
    assert_eq!(get_char_val(HAIR_SPACE), Err(CodecError::InvalidSymbol));
    assert_eq!(get_char_val('\u{FEFF}'), Err(CodecError::InvalidSymbol));
    assert_eq!(get_char_val('\u{200E}'), Err(CodecError::InvalidSymbol));
}

#[test]
fn encoding_puts_the_most_significant_digit_first() {
    // 0x1B is 00 01 10 11, 0xE4 is 11 10 01 00.
    assert_eq!(to_base_4(&[0x1B]), "\u{200B}\u{200C}\u{200D}\u{2060}");
    assert_eq!(to_base_4(&[0xE4]), "\u{2060}\u{200D}\u{200C}\u{200B}");
    assert_eq!(to_base_4(&[0x00]), "\u{200B}\u{200B}\u{200B}\u{200B}");
    assert_eq!(to_base_4(&[0xFF]), "\u{2060}\u{2060}\u{2060}\u{2060}");
    // 'H' is 0x48: 01 00 10 00.
    assert_eq!(to_base_4(b"H"), "\u{200C}\u{200B}\u{200D}\u{200B}");
}

#[test]
fn decoding_reads_the_most_significant_digit_first() {
    assert_eq!(from_base_4("\u{200B}\u{200C}\u{200D}\u{2060}"), Ok(vec![0x1B]));
    assert_eq!(from_base_4("\u{2060}\u{200D}\u{200C}\u{200B}"), Ok(vec![0xE4]));
    assert_eq!(
        from_base_4("\u{200C}\u{200B}\u{200D}\u{200B}\u{200C}\u{200D}\u{200D}\u{200C}"),
        Ok(b"Hi".to_vec())
    );
}

#[test]
fn encoding_of_nothing_is_empty() {
    assert_eq!(to_base_4(&[]), "");
    assert_eq!(from_base_4(""), Ok(vec![]));
}

#[test]
fn encoding_is_four_characters_for_each_byte() {
    for len in 0..40usize {
        let bytes: Vec<u8> = (0..len).map(|i| (i * 37 % 256) as u8).collect();
        let encoded = to_base_4(&bytes);
        assert_eq!(encoded.chars().count(), 4 * len);
        assert_eq!(encoded.is_empty(), bytes.is_empty());
        assert!(encoded.chars().all(|c| BASE_4_CODES.contains(&c)));
    }
}

#[test]
fn every_byte_comes_back_from_its_encoding() {
    for byte in 0..=255u8 {
        let encoded = to_base_4(&[byte]);
        assert_eq!(encoded.chars().count(), 4);
        assert_eq!(from_base_4(&encoded), Ok(vec![byte]));
    }
    let all: Vec<u8> = (0..=255u8).rev().collect();
    assert_eq!(from_base_4(&to_base_4(&all)), Ok(all));
}

#[test]
fn every_group_of_symbols_is_the_encoding_of_its_byte() {
    for a in BASE_4_CODES {
        for b in BASE_4_CODES {
            for c in BASE_4_CODES {
                for d in BASE_4_CODES {
                    let text: String = [a, b, c, d].iter().collect();
                    let bytes = from_base_4(&text).unwrap();
                    assert_eq!(bytes.len(), 1);
                    assert_eq!(to_base_4(&bytes), text);
                }
            }
        }
    }
}

#[test]
fn hidden_text_is_forty_four_characters_and_comes_back() {
    let encoded = to_base_4("Hidden text".as_bytes());
    assert_eq!("Hidden text".len(), 11);
    assert_eq!(encoded.chars().count(), 44);
    assert!(encoded.chars().all(|c| BASE_4_CODES.contains(&c)));
    assert_eq!(from_base_4(&encoded), Ok(b"Hidden text".to_vec()));
}

#[test]
fn foreign_character_before_three_symbols_is_invalid() {
    assert_eq!(from_base_4("X\u{200B}\u{200C}\u{200D}"), Err(CodecError::InvalidSymbol));
    assert_eq!(from_base_4("\u{200A}\u{2060}\u{2060}\u{2060}"), Err(CodecError::InvalidSymbol));
    assert_eq!(from_base_4("\u{FEFF}\u{200B}\u{200B}\u{200B}"), Err(CodecError::InvalidSymbol));
}

#[test]
fn foreign_character_anywhere_in_a_group_is_invalid() {
    assert_eq!(from_base_4("\u{200B}X\u{200C}\u{200D}"), Err(CodecError::InvalidSymbol));
    assert_eq!(from_base_4("\u{200B}\u{200C}X\u{200D}"), Err(CodecError::InvalidSymbol));
    assert_eq!(from_base_4("\u{200B}\u{200C}\u{200D}X"), Err(CodecError::InvalidSymbol));
    assert_eq!(
        from_base_4("\u{200B}\u{200C}\u{200D}\u{2060}\u{200B}\u{200C}\u{200D}e"),
        Err(CodecError::InvalidSymbol)
    );
    assert_eq!(from_base_4("abcd"), Err(CodecError::InvalidSymbol));
}

#[test]
fn length_that_is_no_multiple_of_four_is_truncated() {
    assert_eq!(from_base_4("\u{200B}"), Err(CodecError::TruncatedGroup));
    assert_eq!(from_base_4("\u{200B}\u{200C}"), Err(CodecError::TruncatedGroup));
    assert_eq!(from_base_4("\u{200B}\u{200C}\u{200D}"), Err(CodecError::TruncatedGroup));
    assert_eq!(
        from_base_4("\u{200B}\u{200C}\u{200D}\u{2060}\u{200B}"),
        Err(CodecError::TruncatedGroup)
    );
    let mut encoded = to_base_4(b"Hidden text");
    encoded.pop();
    assert_eq!(from_base_4(&encoded), Err(CodecError::TruncatedGroup));
}

#[test]
fn truncation_is_reported_whatever_the_characters_are() {
    assert_eq!(from_base_4("X"), Err(CodecError::TruncatedGroup));
    assert_eq!(from_base_4("ab"), Err(CodecError::TruncatedGroup));
    assert_eq!(from_base_4("\u{200B}\u{200C}X"), Err(CodecError::TruncatedGroup));
    assert_eq!(from_base_4("hello"), Err(CodecError::TruncatedGroup));
}

#[test]
fn length_is_counted_in_characters_not_in_bytes() {
    // Four characters of three bytes each, then four of differing widths.
    assert_eq!("\u{200B}\u{200B}\u{200B}\u{200B}".len(), 12);
    assert_eq!(from_base_4("\u{200B}\u{200B}\u{200B}\u{200B}"), Ok(vec![0]));
    assert_eq!(from_base_4("a\u{e9}\u{20AC}\u{1F600}"), Err(CodecError::InvalidSymbol));
    assert_eq!(from_base_4("\u{1F600}"), Err(CodecError::TruncatedGroup));
}

#[test]
fn characters_of_a_text_in_order() {
    assert_eq!(to_chars(""), Vec::<char>::new());
    assert_eq!(to_chars("a\u{e9}\u{200B}\u{1F600}z"), vec!['a', '\u{e9}', '\u{200B}', '\u{1F600}', 'z']);
}

#[test]
fn decoding_a_slice_agrees_with_decoding_a_text() {
    assert_eq!(decode_symbols(&[]), Ok(vec![]));
    assert_eq!(decode_symbols(&['\u{200C}', '\u{200B}', '\u{200D}', '\u{200B}']), Ok(vec![0x48]));
    assert_eq!(decode_symbols(&['\u{200C}', '\u{200B}', '\u{200D}']), Err(CodecError::TruncatedGroup));
    assert_eq!(
        decode_symbols(&['\u{200C}', '\u{200B}', '\u{200A}', '\u{200B}']),
        Err(CodecError::InvalidSymbol)
    );
}
