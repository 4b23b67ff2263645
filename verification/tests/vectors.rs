use base64_codec::{
    base64_to_char, base64char_to_byte, base64char_x4_to_rawbytes, decode, encode,
    rawbyte_x3_to_base64_x4, Base64Error, Symbol,
};

#[test]
fn encode_test() {
    let origin = "Pancake";
    let encoded = encode(origin.as_bytes());
    assert_eq!("UGFuY2FrZQ==", encoded);
}

#[test]
fn bytes3_to_64bit_4_test() {
    let input = [b'e'];
    let result = rawbyte_x3_to_base64_x4(&input);
    assert_eq!(Symbol::Data(0b011001), result[0]);
    assert_eq!(Symbol::Data(0b010000), result[1]);

    let input = [b'e', b'f'];
    let result = rawbyte_x3_to_base64_x4(&input);
    assert_eq!(Symbol::Data(0b011001), result[0]);
    assert_eq!(Symbol::Data(0b010110), result[1]);
    assert_eq!(Symbol::Data(0b011000), result[2]);

    let input = [b'e', b'f', b'g'];
    let result = rawbyte_x3_to_base64_x4(&input);
    assert_eq!(Symbol::Data(0b011001), result[0]);
    assert_eq!(Symbol::Data(0b010110), result[1]);
    assert_eq!(Symbol::Data(0b011001), result[2]);
    assert_eq!(Symbol::Data(0b100111), result[3]);

    let input = [b'P', b'a', b'n'];
    let result = rawbyte_x3_to_base64_x4(&input);
    assert_eq!(Symbol::Data(0b010100), result[0]);
    assert_eq!(Symbol::Data(0b000110), result[1]);
    assert_eq!(Symbol::Data(0b000101), result[2]);
    assert_eq!(Symbol::Data(0b101110), result[3]);
}

#[test]
fn base64_4chars_to_bytes_test() {
    assert_eq!(
        base64char_x4_to_rawbytes(&['Y', '2', 'F', 'r']),
        Ok(vec![b'c', b'a', b'k'])
    );
    assert_eq!(
        base64char_x4_to_rawbytes(&['U', 'G', 'F', 'u']),
        Ok(vec![b'P', b'a', b'n'])
    );
}

#[test]
fn decode_test() {
    assert_eq!(decode("UGFuY2FrZQ=="), Ok("Pancake".as_bytes().to_vec()));
}

#[test]
fn one_byte_packs_to_two_data_symbols_and_two_pads() {
    let result = rawbyte_x3_to_base64_x4(&[0x65]);
    assert_eq!(
        result,
        [
            Symbol::Data(0b011001),
            Symbol::Data(0b010000),
            Symbol::Pad,
            Symbol::Pad
        ]
    );
}

#[test]
fn two_bytes_pack_to_three_data_symbols_and_one_pad() {
    let result = rawbyte_x3_to_base64_x4(&[0x65, 0x66]);
    assert_eq!(
        result,
        [
            Symbol::Data(0b011001),
            Symbol::Data(0b010110),
            Symbol::Data(0b011000),
            Symbol::Pad
        ]
    );
}

#[test]
fn three_bytes_pack_to_four_data_symbols() {
    assert_eq!(
        rawbyte_x3_to_base64_x4(&[0xff, 0xff, 0xff]),
        [Symbol::Data(63); 4]
    );
    assert_eq!(
        rawbyte_x3_to_base64_x4(&[0x00, 0x00, 0x00]),
        [Symbol::Data(0); 4]
    );
    assert_eq!(
        rawbyte_x3_to_base64_x4(&[0x04, 0x20, 0xc4]),
        [
            Symbol::Data(1),
            Symbol::Data(2),
            Symbol::Data(3),
            Symbol::Data(4)
        ]
    );
}

#[test]
fn known_encodings() {
    assert_eq!(encode(b""), "");
    assert_eq!(encode(b"f"), "Zg==");
    assert_eq!(encode(b"fo"), "Zm8=");
    assert_eq!(encode(b"foo"), "Zm9v");
    assert_eq!(encode(b"foob"), "Zm9vYg==");
    assert_eq!(encode(b"fooba"), "Zm9vYmE=");
    assert_eq!(encode(b"foobar"), "Zm9vYmFy");
    assert_eq!(encode(&[0xfb, 0xff, 0xbf]), "+/+/");
    assert_eq!(encode(&[0x00]), "AA==");
    assert_eq!(encode(&[0xff, 0xff]), "//8=");
}

#[test]
fn known_decodings() {
    assert_eq!(decode(""), Ok(vec![]));
    assert_eq!(decode("Zg=="), Ok(b"f".to_vec()));
    assert_eq!(decode("Zm8="), Ok(b"fo".to_vec()));
    assert_eq!(decode("Zm9v"), Ok(b"foo".to_vec()));
    assert_eq!(decode("Zm9vYg=="), Ok(b"foob".to_vec()));
    assert_eq!(decode("Zm9vYmE="), Ok(b"fooba".to_vec()));
    assert_eq!(decode("Zm9vYmFy"), Ok(b"foobar".to_vec()));
    assert_eq!(decode("+/+/"), Ok(vec![0xfb, 0xff, 0xbf]));
    assert_eq!(decode("//8="), Ok(vec![0xff, 0xff]));
}

#[test]
fn empty_input_gives_empty_output() {
    assert_eq!(encode(&[]), String::new());
    assert_eq!(decode(""), Ok(Vec::new()));
}

#[test]
fn symbols_map_to_the_alphabet_in_order() {
    let alphabet: Vec<char> =
        "ABCDEFGHIJKLMNOPQRSTUVWXYZabcdefghijklmnopqrstuvwxyz0123456789+/"
            .chars()
            .collect();
    assert_eq!(alphabet.len(), 64);
    for v in 0..64u8 {
        assert_eq!(base64_to_char(&Symbol::Data(v)), alphabet[v as usize]);
        assert_eq!(base64char_to_byte(alphabet[v as usize]), Ok(v));
    }
    assert_eq!(base64_to_char(&Symbol::Pad), '=');
}

#[test]
fn characters_outside_the_alphabet_have_no_value() {
    for c in ['=', '!', ' ', '-', '_', '\n', '@', '[', '`', '{', '.', ':', '\0', 'é', '字'] {
        assert_eq!(base64char_to_byte(c), Err(Base64Error::InvalidCharacter));
    }
    let mut accepted = 0;
    for code in 0..=0x2ffu32 {
        if let Some(c) = char::from_u32(code) {
            if base64char_to_byte(c).is_ok() {
                accepted += 1;
            }
        }
    }
    assert_eq!(accepted, 64);
}
