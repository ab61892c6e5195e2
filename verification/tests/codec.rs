use storefront::cart::Cart;
use storefront::codec::{cart_from_cookie, encode_cart, parse_cart_cookie, DecodeError};

#[test]
fn decode_empty_string_is_empty_cart() {
    let cart = parse_cart_cookie("").expect("empty string must decode");
    assert!(cart.is_empty());
    assert_eq!(cart.ids().len(), 0);
}

#[test]
fn decode_two_pairs() {
    let cart = parse_cart_cookie("3:2,7:1").expect("well-formed cookie must decode");
    assert_eq!(cart.get(3), Some(2));
    assert_eq!(cart.get(7), Some(1));
    assert_eq!(cart.get(5), None);
    assert_eq!(cart.ids().len(), 2);
}

#[test]
fn decode_non_numeric_id_is_invalid_number() {
    match parse_cart_cookie("abc:2") {
        Err(DecodeError::InvalidNumber) => {}
        _ => panic!("expected InvalidNumber"),
    }
}

#[test]
fn handler_treats_non_numeric_id_as_empty_cart() {
    let cart = cart_from_cookie("abc:2");
    assert!(cart.is_empty());
}

#[test]
fn decode_missing_colon_is_malformed_entry() {
    match parse_cart_cookie("3-2") {
        Err(DecodeError::MalformedEntry) => {}
        _ => panic!("expected MalformedEntry"),
    }
}

#[test]
fn handler_treats_missing_colon_as_empty_cart() {
    let cart = cart_from_cookie("3-2");
    assert!(cart.is_empty());
}

#[test]
fn decode_non_numeric_quantity_is_invalid_number() {
    match parse_cart_cookie("3:two") {
        Err(DecodeError::InvalidNumber) => {}
        _ => panic!("expected InvalidNumber"),
    }
}

#[test]
fn decode_fails_fast_on_first_bad_segment() {
    // The first bad segment decides the error even when a later one is worse.
    match parse_cart_cookie("3:x,4-4") {
        Err(DecodeError::InvalidNumber) => {}
        _ => panic!("expected InvalidNumber from the first bad segment"),
    }
    match parse_cart_cookie("3-x,4:y") {
        Err(DecodeError::MalformedEntry) => {}
        _ => panic!("expected MalformedEntry from the first bad segment"),
    }
}

#[test]
fn decode_duplicate_id_last_occurrence_wins() {
    let cart = parse_cart_cookie("3:2,3:9").expect("duplicates are allowed");
    assert_eq!(cart.get(3), Some(9));
    assert_eq!(cart.ids().len(), 1);
}

#[test]
fn decode_splits_on_first_colon_only() {
    // "1:2:3" splits at the first colon; "2:3" is not a number.
    match parse_cart_cookie("1:2:3") {
        Err(DecodeError::InvalidNumber) => {}
        _ => panic!("expected InvalidNumber"),
    }
}

#[test]
fn decode_out_of_range_number_is_invalid() {
    match parse_cart_cookie("2147483648:1") {
        Err(DecodeError::InvalidNumber) => {}
        _ => panic!("expected InvalidNumber"),
    }
}

#[test]
fn encode_empty_cart_is_empty_string() {
    let cart = Cart::new();
    assert_eq!(encode_cart(&cart), "");
}

#[test]
fn encode_writes_canonical_text() {
    // With one entry there is no order to leave open: the text is fixed.
    let mut cart = Cart::new();
    cart.set_quantity(5, 250);
    assert_eq!(encode_cart(&cart), "5:100");
    let mut cart_min = Cart::new();
    cart_min.set_quantity(5, 0);
    assert_eq!(encode_cart(&cart_min), "5:1");
    let mut overwritten = Cart::new();
    overwritten.set_quantity(5, 3);
    overwritten.set_quantity(5, 7);
    assert_eq!(encode_cart(&overwritten), "5:7");
}

#[test]
fn encode_after_remove_keeps_the_other_entry() {
    let mut cart = parse_cart_cookie("5:3,6:1").expect("decodes");
    cart.remove(5);
    assert_eq!(encode_cart(&cart), "6:1");
    cart.remove(99);
    assert_eq!(encode_cart(&cart), "6:1");
}

#[test]
fn round_trip_preserves_mapping() {
    let mut cart = Cart::new();
    cart.set_quantity(3, 2);
    cart.set_quantity(7, 1);
    cart.set_quantity(100, 100);
    let wire = encode_cart(&cart);
    let back = parse_cart_cookie(&wire).expect("an encoded cart must decode");
    assert_eq!(back.get(3), Some(2));
    assert_eq!(back.get(7), Some(1));
    assert_eq!(back.get(100), Some(100));
    assert_eq!(back.ids().len(), 3);
}

#[test]
fn round_trip_single_entry() {
    let mut cart = Cart::new();
    cart.set_quantity(5, 1);
    let wire = encode_cart(&cart);
    assert!(!wire.is_empty());
    let back = parse_cart_cookie(&wire).expect("an encoded cart must decode");
    assert_eq!(back.get(5), Some(1));
    assert_eq!(back.ids().len(), 1);
}

#[test]
fn round_trip_with_negative_id() {
    let mut cart = Cart::new();
    cart.set_quantity(-3, 2);
    let wire = encode_cart(&cart);
    let back = parse_cart_cookie(&wire).expect("an encoded cart must decode");
    assert_eq!(back.get(-3), Some(2));
    assert_eq!(back.ids().len(), 1);
}

#[test]
fn decode_accepts_negative_and_signed_numbers() {
    // The decoder accepts any base-10 i32, as the cookie parser always did.
    let cart = parse_cart_cookie("-3:+4").expect("signed numbers parse");
    assert_eq!(cart.get(-3), Some(4));
}
