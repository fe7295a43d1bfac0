use kernel::error::EvalError;
use kernel::expr::{byte_item, expr_len, item_byte, Tag};
use kernel::list_helpers::{exp_to_vec, expr_span, expr_symbol_content, vec_to_exp};

#[test]
fn tag_bytes_decode() {
    assert_eq!(byte_item(0), Some(Tag::Arity(0)));
    assert_eq!(byte_item(3), Some(Tag::Arity(3)));
    assert_eq!(byte_item(64), None);
    assert_eq!(byte_item(130), Some(Tag::VarRef(2)));
    assert_eq!(byte_item(192), Some(Tag::NewVar));
    assert_eq!(byte_item(195), Some(Tag::SymbolSize(3)));
}

#[test]
fn tag_bytes_encode() {
    assert_eq!(item_byte(Tag::Arity(5)), 5);
    assert_eq!(item_byte(Tag::VarRef(1)), 129);
    assert_eq!(item_byte(Tag::NewVar), 192);
    assert_eq!(item_byte(Tag::SymbolSize(4)), 196);
}

#[test]
fn expression_lengths() {
    // (a (b $) _1)
    let e = vec![3u8, 193, b'a', 2, 193, b'b', 192, 128];
    assert_eq!(expr_len(&e, 0), Some(8));
    assert_eq!(expr_len(&e, 1), Some(2));
    assert_eq!(expr_len(&e, 3), Some(4));
    assert_eq!(expr_len(&e[..7], 0), None);
    assert_eq!(expr_len(&[70u8], 0), None);
    assert_eq!(expr_len(&[195u8, b'a'], 0), None);
}

#[test]
fn expr_span_takes_the_first_expression() {
    let bytes = vec![2u8, 193, b'a', 193, b'b', 193, b'c'];
    assert_eq!(expr_span(&bytes), Some(vec![2u8, 193, b'a', 193, b'b']));
    assert_eq!(expr_span(&[2u8, 193]), None);
}

#[test]
fn symbol_content_of_symbols_only() {
    assert_eq!(expr_symbol_content(&[195u8, b'x', b'y', b'z']), Some(b"xyz".to_vec()));
    assert_eq!(expr_symbol_content(&[0u8]), None);
    assert_eq!(expr_symbol_content(&[192u8]), None);
}

#[test]
fn tuples_come_apart_and_back() {
    let t = vec![2u8, 193, b'a', 1, 193, b'b'];
    let items = exp_to_vec(&t).unwrap();
    assert_eq!(items, vec![vec![193u8, b'a'], vec![1u8, 193, b'b']]);
    assert_eq!(vec_to_exp(&items), t);
    assert_eq!(exp_to_vec(&[193u8, b'a']), Err(EvalError::ExpectsTuple));
    assert_eq!(exp_to_vec(&[0u8]), Ok(Vec::new()));
}
