use kernel::codec::{decode_base64url, decode_hex, encode_base64url, encode_hex};
use kernel::error::EvalError;

fn sym(s: &[u8]) -> Vec<u8> {
    let mut v = vec![192u8 + s.len() as u8];
    v.extend_from_slice(s);
    v
}

#[test]
fn encode_hex_writes_lowercase_pairs() {
    assert_eq!(encode_hex(&vec![sym(b"abc")]), Ok(b"616263".to_vec()));
    assert_eq!(encode_hex(&vec![sym(&[0x00, 0xff, 0x1a])]), Ok(b"00ff1a".to_vec()));
    assert_eq!(encode_hex(&vec![vec![0u8]]), Err(EvalError::ExpectsSymbol));
    assert_eq!(encode_hex(&vec![]), Err(EvalError::TakesOneArgument));
}

#[test]
fn decode_hex_reads_either_case() {
    assert_eq!(decode_hex(&vec![sym(b"616263")]), Ok(b"abc".to_vec()));
    assert_eq!(decode_hex(&vec![sym(b"ABcd")]), Ok(vec![0xab, 0xcd]));
}

#[test]
fn decode_hex_rejects_bad_text() {
    assert_eq!(decode_hex(&vec![sym(b"abc")]), Err(EvalError::InvalidHex));
    assert_eq!(decode_hex(&vec![sym(b"zz")]), Err(EvalError::InvalidHex));
    assert_eq!(decode_hex(&vec![vec![0u8]]), Err(EvalError::ExpectsSymbol));
}

#[test]
fn hex_round_trip() {
    let text = encode_hex(&vec![sym(b"kernel")]).unwrap();
    assert_eq!(decode_hex(&vec![sym(&text)]), Ok(b"kernel".to_vec()));
}

#[test]
fn encode_base64url_writes_unpadded_text() {
    assert_eq!(encode_base64url(&vec![sym(b"hello")]), Ok(b"aGVsbG8".to_vec()));
    assert_eq!(encode_base64url(&vec![sym(&[0xfb, 0xff])]), Ok(b"-_8".to_vec()));
    assert_eq!(encode_base64url(&vec![sym(b"abc")]), Ok(b"YWJj".to_vec()));
}

#[test]
fn encode_base64url_length_limit() {
    let fits = encode_base64url(&vec![sym(&[7u8; 48])]).unwrap();
    assert_eq!(fits.len(), 64);
    assert_eq!(encode_base64url(&vec![sym(&[7u8; 49])]), Err(EvalError::Base64TooLong));
}

#[test]
fn decode_base64url_reads_unpadded_text() {
    assert_eq!(decode_base64url(&vec![sym(b"aGVsbG8")]), Ok(b"hello".to_vec()));
    assert_eq!(decode_base64url(&vec![sym(b"-_8")]), Ok(vec![0xfb, 0xff]));
}

#[test]
fn decode_base64url_rejects_bad_text() {
    assert_eq!(decode_base64url(&vec![sym(b"!!")]), Err(EvalError::InvalidBase64));
    assert_eq!(decode_base64url(&vec![sym(b"aGVsbG8=")]), Err(EvalError::InvalidBase64));
    assert_eq!(decode_base64url(&vec![sym(b"+/8")]), Err(EvalError::InvalidBase64));
}

#[test]
fn base64url_round_trip() {
    let text = encode_base64url(&vec![sym(b"weights")]).unwrap();
    assert_eq!(decode_base64url(&vec![sym(&text)]), Ok(b"weights".to_vec()));
}
