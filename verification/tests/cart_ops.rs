use storefront::cart::Cart;
use storefront::number::parse_i32;

#[test]
fn set_quantity_clamps_to_max() {
    let mut cart = Cart::new();
    cart.set_quantity(5, 250);
    assert_eq!(cart.get(5), Some(100));
}

#[test]
fn set_quantity_clamps_to_min() {
    let mut cart = Cart::new();
    cart.set_quantity(5, 0);
    assert_eq!(cart.get(5), Some(1));
    let mut below = Cart::new();
    below.set_quantity(5, -7);
    assert_eq!(below.get(5), Some(1));
}

#[test]
fn set_quantity_overwrites_existing_entry() {
    let mut cart = Cart::new();
    cart.set_quantity(5, 3);
    cart.set_quantity(5, 7);
    assert_eq!(cart.get(5), Some(7));
    assert_eq!(cart.ids().len(), 1);
}

#[test]
fn remove_deletes_only_the_given_id() {
    let mut cart = Cart::new();
    cart.set_quantity(5, 3);
    cart.set_quantity(6, 1);
    cart.remove(5);
    assert_eq!(cart.get(5), None);
    assert_eq!(cart.get(6), Some(1));
    assert_eq!(cart.ids().len(), 1);
}

#[test]
fn remove_of_absent_id_is_a_no_op() {
    let mut cart = Cart::new();
    cart.set_quantity(6, 1);
    cart.remove(99);
    assert_eq!(cart.get(6), Some(1));
    assert_eq!(cart.ids().len(), 1);
}

#[test]
fn new_cart_is_empty() {
    let cart = Cart::new();
    assert!(cart.is_empty());
    let mut filled = Cart::new();
    filled.set_quantity(1, 1);
    assert!(!filled.is_empty());
}

#[test]
fn ids_lists_each_product_once() {
    let mut cart = Cart::new();
    cart.set_quantity(3, 2);
    cart.set_quantity(7, 1);
    cart.set_quantity(3, 5);
    let mut ids = cart.ids();
    ids.sort();
    assert_eq!(ids, vec![3, 7]);
}

#[test]
fn clamped_restores_the_quantity_invariant() {
    let raw = storefront::codec::parse_cart_cookie("3:500,4:-2,5:7").expect("decodes");
    assert_eq!(raw.get(3), Some(500)); // decode stores what the cookie said
    let cart = raw.clamped();
    assert_eq!(cart.get(3), Some(100));
    assert_eq!(cart.get(4), Some(1));
    assert_eq!(cart.get(5), Some(7));
    assert_eq!(cart.ids().len(), 3);
}

#[test]
fn parse_i32_accepts_plain_and_signed_literals() {
    assert_eq!(parse_i32("0"), Some(0));
    assert_eq!(parse_i32("42"), Some(42));
    assert_eq!(parse_i32("007"), Some(7));
    assert_eq!(parse_i32("+5"), Some(5));
    assert_eq!(parse_i32("-12"), Some(-12));
}

#[test]
fn parse_i32_handles_the_i32_boundaries() {
    assert_eq!(parse_i32("2147483647"), Some(i32::MAX));
    assert_eq!(parse_i32("-2147483648"), Some(i32::MIN));
    assert_eq!(parse_i32("2147483648"), None);
    assert_eq!(parse_i32("-2147483649"), None);
    assert_eq!(parse_i32("99999999999999999999999"), None);
}

#[test]
fn parse_i32_rejects_non_literals() {
    assert_eq!(parse_i32(""), None);
    assert_eq!(parse_i32("-"), None);
    assert_eq!(parse_i32("+"), None);
    assert_eq!(parse_i32("1 2"), None);
    assert_eq!(parse_i32("12a"), None);
    assert_eq!(parse_i32("a12"), None);
    assert_eq!(parse_i32(" 12"), None);
}
