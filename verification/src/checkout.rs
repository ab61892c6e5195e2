//! Cart display and checkout arithmetic.
//!
//! Money is exact here: a unit price carries three decimal places (an
//! integer count of milli-units), and rounding to whole cents is
//! round-half-away-from-zero, the integer counterpart of
//! `round(x * 100) / 100`. A cart is joined against catalog rows by
//! product id: rows the cart does not reference are skipped, and cart
//! entries without a catalog row are silently dropped from the line
//! list and the total. The per-line subtotal and the grand total are
//! rounded to cents independently, by the same rule.

use vstd::prelude::*;
use crate::cart::{Cart, clamp_quantity};
use crate::number::{int_literal_value, int_to_chars, parse_i32, parses_as_i32, push_i32};
use crate::text::push_char;

verus! {

/// Upper bound on a unit price: one billion currency units, in milli-units.
pub const MAX_PRICE_MILLI: u64 = 1_000_000_000_000;

/// Upper bound on the number of catalog rows fed into a totaling pass.
pub const MAX_CATALOG_ROWS: usize = 100_000;

/// A catalog row: the product data a cart page or a checkout needs.
#[derive(Debug)]
pub struct Product {
    pub id: i32,
    pub name: String,
    /// Unit price in milli-units (thousandths of the currency unit).
    pub price_milli: u64,
}

/// One rendered cart line: a catalog row joined with its cart quantity.
#[derive(Debug)]
pub struct CartLine {
    pub product_id: i32,
    pub name: String,
    /// Unit price rounded to whole cents.
    pub unit_price_cents: u64,
    pub quantity: i32,
    /// Quantity times unit price, rounded to whole cents.
    pub line_total_cents: u64,
}

/// An amount of milli-units rounded to whole cents, halves away from zero.
pub open spec fn round_to_cents(milli: int) -> int {
    if milli >= 0 {
        (milli + 5) / 10
    } else {
        -(((-milli) + 5) / 10)
    }
}

/// The catalog rows the cart references, paired with their quantities,
/// in catalog order. Rows absent from the cart, and cart entries with
/// no catalog row, appear nowhere.
pub open spec fn matched(rows: Seq<Product>, m: Map<int, int>) -> Seq<(Product, int)>
    decreases rows.len(),
{
    if rows.len() == 0 {
        Seq::empty()
    } else {
        matched(rows.drop_last(), m) + (if m.contains_key(rows.last().id as int) {
            seq![(rows.last(), m[rows.last().id as int])]
        } else {
            Seq::empty()
        })
    }
}

/// The exact (unrounded) total of the matched rows, in milli-units.
pub open spec fn spec_total_milli(rows: Seq<Product>, m: Map<int, int>) -> int
    decreases rows.len(),
{
    if rows.len() == 0 {
        0
    } else {
        spec_total_milli(rows.drop_last(), m) + (if m.contains_key(rows.last().id as int) {
            m[rows.last().id as int] * (rows.last().price_milli as int)
        } else {
            0
        })
    }
}

/// `l` is the rendered line for row `p` bought `q` times.
pub open spec fn line_matches(l: CartLine, p: Product, q: int) -> bool {
    &&& l.product_id == p.id
    &&& l.name@ == p.name@
    &&& l.unit_price_cents as int == round_to_cents(p.price_milli as int)
    &&& l.quantity as int == q
    &&& l.line_total_cents as int == round_to_cents(q * (p.price_milli as int))
}

/// A cart entry whose product id matches no catalog row changes
/// nothing: the line list and the exact total are those of the cart
/// without that entry.
pub proof fn lemma_unmatched_entry_dropped(rows: Seq<Product>, m: Map<int, int>, id: int, q: int)
    requires
        forall|i: int| 0 <= i < rows.len() ==> (#[trigger] rows[i]).id != id,
    ensures
        matched(rows, m.insert(id, q)) =~= matched(rows, m),
        spec_total_milli(rows, m.insert(id, q)) == spec_total_milli(rows, m),
    decreases rows.len(),
{
    if rows.len() > 0 {
        assert(rows[rows.len() - 1].id != id);
        assert forall|i: int| 0 <= i < rows.drop_last().len() implies (
        #[trigger] rows.drop_last()[i]).id != id by {
            assert(rows.drop_last()[i] == rows[i]);
        }
        lemma_unmatched_entry_dropped(rows.drop_last(), m, id, q);
    }
}

/// Rounds a milli-unit amount to whole cents.
pub fn round_milli_to_cents(milli: u64) -> (r: u64)
    requires
        milli <= u64::MAX - 5,
    ensures
        r as int == round_to_cents(milli as int),
{
    (milli + 5) / 10
}

/// Joins the catalog rows against the cart, in catalog order: one line
/// per row the cart references, with the unit price and the line total
/// rounded to cents. Rows the cart does not mention, and cart entries
/// without a catalog row, produce no line.
pub fn build_lines(catalog: &Vec<Product>, cart: &Cart) -> (r: Vec<CartLine>)
    requires
        cart.well_formed(),
        cart.quantities_in_range(),
        forall|i: int|
            0 <= i < catalog@.len() ==> (#[trigger] catalog@[i]).price_milli <= MAX_PRICE_MILLI,
    ensures
        r@.len() == matched(catalog@, cart@).len(),
        forall|j: int|
            0 <= j < r@.len() ==> line_matches(
                #[trigger] r@[j],
                matched(catalog@, cart@)[j].0,
                matched(catalog@, cart@)[j].1,
            ),
{
    let mut r: Vec<CartLine> = Vec::new();
    let mut i: usize = 0;
    while i < catalog.len()
        invariant
            cart.well_formed(),
            cart.quantities_in_range(),
            forall|j: int|
                0 <= j < catalog@.len() ==> (#[trigger] catalog@[j]).price_milli
                    <= MAX_PRICE_MILLI,
            i <= catalog@.len(),
            r@.len() == matched(catalog@.take(i as int), cart@).len(),
            forall|j: int|
                0 <= j < r@.len() ==> line_matches(
                    #[trigger] r@[j],
                    matched(catalog@.take(i as int), cart@)[j].0,
                    matched(catalog@.take(i as int), cart@)[j].1,
                ),
        decreases catalog@.len() - i,
    {
        let ghost done = matched(catalog@.take(i as int), cart@);
        proof {
            assert(catalog@.take(i as int + 1).drop_last() =~= catalog@.take(i as int));
            assert(catalog@.take(i as int + 1).last() == catalog@[i as int]);
        }
        match cart.get(catalog[i].id) {
            Some(q) => {
                proof {
                    assert(1 <= q as int <= 100);
                    assert((q as int) * (catalog@[i as int].price_milli as int) <= 100
                        * 1_000_000_000_000) by (nonlinear_arith)
                        requires
                            1 <= q as int <= 100,
                            0 <= catalog@[i as int].price_milli as int <= 1_000_000_000_000,
                    ;
                }
                let line_milli: u64 = (q as u64) * catalog[i].price_milli;
                let line = CartLine {
                    product_id: catalog[i].id,
                    name: catalog[i].name.clone(),
                    unit_price_cents: round_milli_to_cents(catalog[i].price_milli),
                    quantity: q,
                    line_total_cents: round_milli_to_cents(line_milli),
                };
                r.push(line);
                proof {
                    assert(matched(catalog@.take(i as int + 1), cart@) =~= done + seq![
                        (catalog@[i as int], q as int),
                    ]);
                }
            },
            None => {
                proof {
                    assert(matched(catalog@.take(i as int + 1), cart@) =~= done);
                }
            },
        }
        i = i + 1;
    }
    proof {
        assert(catalog@.take(catalog@.len() as int) =~= catalog@);
    }
    r
}

/// The grand total in whole cents: the exact milli-unit total of the
/// matched rows, rounded once at the end.
pub fn total_cents(catalog: &Vec<Product>, cart: &Cart) -> (r: u64)
    requires
        cart.well_formed(),
        cart.quantities_in_range(),
        catalog@.len() <= MAX_CATALOG_ROWS,
        forall|i: int|
            0 <= i < catalog@.len() ==> (#[trigger] catalog@[i]).price_milli <= MAX_PRICE_MILLI,
    ensures
        r as int == round_to_cents(spec_total_milli(catalog@, cart@)),
{
    let mut acc: u64 = 0;
    let mut i: usize = 0;
    while i < catalog.len()
        invariant
            cart.well_formed(),
            cart.quantities_in_range(),
            catalog@.len() <= MAX_CATALOG_ROWS,
            forall|j: int|
                0 <= j < catalog@.len() ==> (#[trigger] catalog@[j]).price_milli
                    <= MAX_PRICE_MILLI,
            i <= catalog@.len(),
            acc as int == spec_total_milli(catalog@.take(i as int), cart@),
            acc as int <= (i as int) * 100_000_000_000_000,
        decreases catalog@.len() - i,
    {
        proof {
            assert(catalog@.take(i as int + 1).drop_last() =~= catalog@.take(i as int));
            assert(catalog@.take(i as int + 1).last() == catalog@[i as int]);
        }
        match cart.get(catalog[i].id) {
            Some(q) => {
                proof {
                    assert(1 <= q as int <= 100);
                    assert((q as int) * (catalog@[i as int].price_milli as int) <= 100
                        * 1_000_000_000_000) by (nonlinear_arith)
                        requires
                            1 <= q as int <= 100,
                            0 <= catalog@[i as int].price_milli as int <= 1_000_000_000_000,
                    ;
                    assert((q as int) * (catalog@[i as int].price_milli as int) >= 0)
                        by (nonlinear_arith)
                        requires
                            1 <= q as int,
                            0 <= catalog@[i as int].price_milli as int,
                    ;
                }
                let line_milli: u64 = (q as u64) * catalog[i].price_milli;
                acc = acc + line_milli;
            },
            None => {
            },
        }
        i = i + 1;
    }
    proof {
        assert(catalog@.take(catalog@.len() as int) =~= catalog@);
    }
    round_milli_to_cents(acc)
}

/// The quantity a form submission asks for: the parsed value clamped to
/// `[1, 100]`, or 1 when the field is absent or not a number.
pub fn requested_quantity(raw: Option<&str>) -> (q: i32)
    ensures
        q as int == match raw {
            Some(t) => if parses_as_i32(t@) {
                clamp_quantity(int_literal_value(t@))
            } else {
                1
            },
            None => 1,
        },
{
    match raw {
        None => 1,
        Some(t) => match parse_i32(t) {
            Some(v) => if v < 1 {
                1
            } else if v > 100 {
                100
            } else {
                v
            },
            None => 1,
        },
    }
}

/// The printed form of one line in a payment description: the product
/// name, then its quantity as ` (xN)`.
pub open spec fn item_chars(l: CartLine) -> Seq<char> {
    l.name@ + seq![' ', '(', 'x'] + int_to_chars(l.quantity as int) + seq![')']
}

/// The printed form of a payment description: the lines' items joined
/// with ` + `.
pub open spec fn description_chars(lines: Seq<CartLine>) -> Seq<char>
    decreases lines.len(),
{
    if lines.len() == 0 {
        Seq::empty()
    } else if lines.len() == 1 {
        item_chars(lines[0])
    } else {
        item_chars(lines[0]) + seq![' ', '+', ' '] + description_chars(lines.drop_first())
    }
}

/// Appending a line to a non-empty list appends a separator and its item.
proof fn lemma_description_snoc(lines: Seq<CartLine>)
    requires
        lines.len() >= 2,
    ensures
        description_chars(lines) =~= description_chars(lines.drop_last()) + seq![' ', '+', ' ']
            + item_chars(lines.last()),
    decreases lines.len(),
{
    if lines.len() == 2 {
        assert(lines.drop_first().len() == 1);
        assert(description_chars(lines.drop_first()) == item_chars(lines.drop_first()[0]));
        assert(lines.drop_first()[0] == lines[1]);
        assert(lines.drop_last().len() == 1);
        assert(description_chars(lines.drop_last()) == item_chars(lines.drop_last()[0]));
        assert(lines.drop_last()[0] == lines[0]);
        assert(lines.last() == lines[1]);
    } else {
        lemma_description_snoc(lines.drop_first());
        assert(lines.drop_first().drop_last() =~= lines.drop_last().drop_first());
        assert(lines.drop_first().last() == lines.last());
        assert(lines.drop_last().len() >= 2);
        assert(description_chars(lines.drop_last()) == item_chars(lines.drop_last()[0]) + seq![
            ' ',
            '+',
            ' ',
        ] + description_chars(lines.drop_last().drop_first()));
        assert(lines.drop_last()[0] == lines[0]);
        assert(lines.drop_first()[0] == lines[1]);
    }
}

/// Builds the human-readable payment description: each line's name and
/// quantity, joined with ` + `.
pub fn build_description(lines: &Vec<CartLine>) -> (r: String)
    ensures
        r@ == description_chars(lines@),
{
    let mut out = String::new();
    let mut i: usize = 0;
    while i < lines.len()
        invariant
            i <= lines@.len(),
            out@ == description_chars(lines@.take(i as int)),
        decreases lines@.len() - i,
    {
        if i > 0 {
            out.append(" + ");
            proof {
                reveal_strlit(" + ");
                assert(" + "@ =~= seq![' ', '+', ' ']);
            }
        }
        out.append(lines[i].name.as_str());
        out.append(" (x");
        proof {
            reveal_strlit(" (x");
            assert(" (x"@ =~= seq![' ', '(', 'x']);
        }
        push_i32(&mut out, lines[i].quantity);
        push_char(&mut out, ')');
        proof {
            let done = lines@.take(i as int + 1);
            assert(done[0] == lines@[0]);
            assert(done.last() == lines@[i as int]);
            if i == 0 {
                assert(done.len() == 1);
                assert(out@ =~= item_chars(lines@[0]));
            } else {
                lemma_description_snoc(done);
                assert(done.drop_last() =~= lines@.take(i as int));
                assert(out@ =~= description_chars(lines@.take(i as int)) + seq![' ', '+', ' ']
                    + item_chars(lines@[i as int]));
            }
        }
        i = i + 1;
    }
    proof {
        assert(lines@.take(lines@.len() as int) =~= lines@);
    }
    out
}

} // verus!
