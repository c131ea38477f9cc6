use hyper_fs::encoding::base64_decode;
use hyper_fs::encoding::base64_encode;
use hyper_fs::encoding::decode_data;
use hyper_fs::encoding::encode_string;
use hyper_fs::encoding::hex_decode;
use hyper_fs::encoding::Decoded;

fn text_of(d: Decoded) -> String {
    match d {
        Decoded::Text(s) => s,
        Decoded::Bytes(_) => panic!("expected text"),
    }
}

#[test]
fn base64_encodes_whole_and_partial_groups() {
    assert_eq!(base64_encode(b"Man", false), "TWFu");
    assert_eq!(base64_encode(b"Ma", false), "TWE=");
    assert_eq!(base64_encode(b"M", false), "TQ==");
    assert_eq!(base64_encode(b"", false), "");
}

#[test]
fn base64_url_variant_uses_its_alphabet_and_no_padding() {
    assert_eq!(base64_encode(&[0xfb, 0xff], false), "+/8=");
    assert_eq!(base64_encode(&[0xfb, 0xff], true), "-_8");
}

#[test]
fn base64_decodes_and_skips_padding_and_noise() {
    assert_eq!(base64_decode("TWFu", false), b"Man");
    assert_eq!(base64_decode("TWE=", false), b"Ma");
    assert_eq!(base64_decode("TW E\n=", false), b"Ma");
    assert_eq!(base64_decode("-_8", true), vec![0xfb, 0xff]);
}

#[test]
fn base64_round_trip_restores_the_bytes() {
    let data: Vec<u8> = (0u8..=255).collect();
    let text = base64_encode(&data, false);
    assert_eq!(base64_decode(&text, false), data);
}

#[test]
fn hex_decodes_pairs_and_trims() {
    assert_eq!(hex_decode("48656c6c6f").unwrap(), b"Hello");
    assert_eq!(hex_decode("  4AfF\n").unwrap(), vec![0x4a, 0xff]);
    assert_eq!(hex_decode("").unwrap(), Vec::<u8>::new());
}

#[test]
fn hex_refuses_odd_length_and_bad_digits() {
    assert!(hex_decode("abc").is_err());
    assert!(hex_decode("zz").is_err());
}

#[test]
fn encode_string_utf8_gives_the_utf8_bytes() {
    assert_eq!(encode_string("hi", None).unwrap(), b"hi");
    assert_eq!(encode_string("hé", Some("utf8")).unwrap(), "hé".as_bytes());
}

#[test]
fn encode_string_ascii_masks_the_high_bit() {
    let v = encode_string("é", Some("ascii")).unwrap();
    let raw = "é".as_bytes();
    assert_eq!(v.len(), raw.len());
    for (a, b) in v.iter().zip(raw.iter()) {
        assert_eq!(*a, b & 0x7f);
    }
}

#[test]
fn encode_string_latin1_takes_low_bytes() {
    assert_eq!(encode_string("Aé", Some("latin1")).unwrap(), vec![0x41, 0xe9]);
}

#[test]
fn encode_string_base64_and_hex_decode_the_text() {
    assert_eq!(encode_string("TWFu", Some("base64")).unwrap(), b"Man");
    assert_eq!(encode_string("4141", Some("hex")).unwrap(), b"AA");
    assert!(encode_string("4g", Some("hex")).is_err());
}

#[test]
fn encode_string_refuses_an_unknown_encoding() {
    let e = encode_string("x", Some("ebcdic")).unwrap_err();
    assert!(matches!(e.kind, hyper_fs::errors::FsErrorKind::InvalidArgument));
}

#[test]
fn decode_data_without_encoding_hands_bytes_back() {
    match decode_data(vec![1, 2, 3], None).unwrap() {
        Decoded::Bytes(v) => assert_eq!(v, vec![1, 2, 3]),
        Decoded::Text(_) => panic!("expected bytes"),
    }
}

#[test]
fn decode_data_utf8_accepts_valid_and_refuses_invalid() {
    assert_eq!(text_of(decode_data(b"ok".to_vec(), Some("utf8")).unwrap()), "ok");
    assert!(decode_data(vec![0xff, 0xfe], Some("utf-8")).is_err());
}

#[test]
fn decode_data_hex_writes_lowercase_digits() {
    assert_eq!(text_of(decode_data(vec![0x4a, 0xff], Some("hex")).unwrap()), "4aff");
}

#[test]
fn decode_data_base64_encodes_the_bytes() {
    assert_eq!(text_of(decode_data(b"Man".to_vec(), Some("base64")).unwrap()), "TWFu");
    assert_eq!(
        text_of(decode_data(vec![0xfb, 0xff], Some("base64url")).unwrap()),
        "-_8"
    );
}

#[test]
fn decode_data_latin1_reads_each_byte_as_a_character() {
    assert_eq!(text_of(decode_data(vec![0x41, 0xe9], Some("latin1")).unwrap()), "Aé");
    assert_eq!(text_of(decode_data(vec![0xc1], Some("ascii")).unwrap()), "A");
}
