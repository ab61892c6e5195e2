use storefront::cart::Cart;
use storefront::checkout::{
    build_description, build_lines, requested_quantity, round_milli_to_cents, total_cents,
    Product,
};

fn product(id: i32, name: &str, price_milli: u64) -> Product {
    Product { id, name: String::from(name), price_milli }
}

#[test]
fn rounding_is_half_away_from_zero_at_the_cent() {
    assert_eq!(round_milli_to_cents(19990), 1999);
    assert_eq!(round_milli_to_cents(19995), 2000);
    assert_eq!(round_milli_to_cents(19994), 1999);
    assert_eq!(round_milli_to_cents(1004), 100);
    assert_eq!(round_milli_to_cents(1005), 101);
    assert_eq!(round_milli_to_cents(5), 1);
    assert_eq!(round_milli_to_cents(4), 0);
    assert_eq!(round_milli_to_cents(0), 0);
}

#[test]
fn line_totals_and_grand_total_round_independently() {
    // Prices 9.995 and 1.004; cart {3: 2, 7: 1}.
    let catalog = vec![product(3, "Widget", 9_995), product(7, "Washer", 1_004)];
    let mut cart = Cart::new();
    cart.set_quantity(3, 2);
    cart.set_quantity(7, 1);

    let lines = build_lines(&catalog, &cart);
    assert_eq!(lines.len(), 2);
    assert_eq!(lines[0].product_id, 3);
    assert_eq!(lines[0].quantity, 2);
    assert_eq!(lines[0].line_total_cents, 1999); // round2(19.99) == 19.99
    assert_eq!(lines[1].product_id, 7);
    assert_eq!(lines[1].quantity, 1);
    assert_eq!(lines[1].line_total_cents, 100); // round2(1.004) == 1.00

    // Grand total: round2(19.990 + 1.004) == 20.99.
    assert_eq!(total_cents(&catalog, &cart), 2099);
}

#[test]
fn unit_price_is_rounded_to_cents_for_display() {
    let catalog = vec![product(3, "Widget", 9_995)];
    let mut cart = Cart::new();
    cart.set_quantity(3, 1);
    let lines = build_lines(&catalog, &cart);
    assert_eq!(lines[0].unit_price_cents, 1000); // 9.995 displays as 10.00
}

#[test]
fn cart_entry_without_catalog_row_is_dropped() {
    let catalog = vec![product(3, "Widget", 9_995)];
    let mut cart = Cart::new();
    cart.set_quantity(3, 2);
    cart.set_quantity(99, 5); // no catalog row with id 99
    let lines = build_lines(&catalog, &cart);
    assert_eq!(lines.len(), 1);
    assert_eq!(lines[0].product_id, 3);
    assert_eq!(total_cents(&catalog, &cart), 1999);
}

#[test]
fn catalog_row_not_in_cart_produces_no_line() {
    let catalog = vec![product(3, "Widget", 9_995), product(8, "Gasket", 500)];
    let mut cart = Cart::new();
    cart.set_quantity(3, 1);
    let lines = build_lines(&catalog, &cart);
    assert_eq!(lines.len(), 1);
    assert_eq!(lines[0].product_id, 3);
}

#[test]
fn empty_cart_totals_zero() {
    let catalog = vec![product(3, "Widget", 9_995)];
    let cart = Cart::new();
    assert_eq!(total_cents(&catalog, &cart), 0);
    assert_eq!(build_lines(&catalog, &cart).len(), 0);
}

#[test]
fn description_joins_items_with_plus() {
    let catalog = vec![product(3, "Apple", 1_000), product(7, "Pear", 2_000)];
    let mut cart = Cart::new();
    cart.set_quantity(3, 2);
    cart.set_quantity(7, 1);
    let lines = build_lines(&catalog, &cart);
    assert_eq!(build_description(&lines), "Apple (x2) + Pear (x1)");
}

#[test]
fn description_of_one_item_has_no_separator() {
    let catalog = vec![product(3, "Apple", 1_000)];
    let mut cart = Cart::new();
    cart.set_quantity(3, 3);
    let lines = build_lines(&catalog, &cart);
    assert_eq!(build_description(&lines), "Apple (x3)");
}

#[test]
fn description_of_no_items_is_empty() {
    let lines = Vec::new();
    assert_eq!(build_description(&lines), "");
}

#[test]
fn requested_quantity_parses_and_clamps() {
    assert_eq!(requested_quantity(Some("42")), 42);
    assert_eq!(requested_quantity(Some("250")), 100);
    assert_eq!(requested_quantity(Some("0")), 1);
    assert_eq!(requested_quantity(Some("-3")), 1);
    assert_eq!(requested_quantity(Some("abc")), 1);
    assert_eq!(requested_quantity(Some("")), 1);
    assert_eq!(requested_quantity(None), 1);
}
