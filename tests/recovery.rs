use fedimint_consensus::tweak::{tweak_parser, TweakParseError};
use hex::ToHex;

#[test]
fn parses_valid_length_tweaks() {
    let bad_length_tweak: [u8; 32] = rand::random::<[u8; 32]>();
    let bad_length_tweak_hex = bad_length_tweak.encode_hex::<String>();
    // rand::random only supports random byte arrays up to 32 bytes
    let good_length_tweak: [u8; 33] = core::array::from_fn(|_| rand::random::<u8>());
    let good_length_tweak_hex = good_length_tweak.encode_hex::<String>();
    assert_eq!(
        tweak_parser(good_length_tweak_hex.as_str()).expect("should parse valid length hex"),
        good_length_tweak
    );
    assert!(tweak_parser(bad_length_tweak_hex.as_str()).is_err());
}

#[test]
fn tweak_parser_errors() {
    assert_eq!(tweak_parser("0g"), Err(TweakParseError::InvalidHex));
    assert_eq!(tweak_parser("012"), Err(TweakParseError::InvalidHex));
    assert_eq!(tweak_parser("0102"), Err(TweakParseError::WrongLength));
    let mut t = [0u8; 33];
    t[0] = 0xff;
    t[32] = 0x01;
    assert_eq!(tweak_parser(&hex::encode(t)), Ok(t));
}
