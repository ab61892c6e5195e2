//! The cart wire codec.
//!
//! A cart travels in a cookie as comma-separated `id:quantity` pairs,
//! for example `"3:2,7:1"`; the empty string is the empty cart. Decoding
//! is fail-fast: the first segment without a colon, or with a half that
//! is not a base-10 `i32`, fails the whole decode. Duplicate ids are
//! resolved by letting the last occurrence win. Encoding writes the
//! pairs back in canonical decimal; its contract pins the text up to
//! pair order — the one thing the wire format leaves open — and with it
//! the round trip: whatever encoding produces decodes to the same
//! mapping.

use vstd::prelude::*;
use crate::cart::{Cart, CartEntry, map_of, lemma_cart_model, unique_ids};
use crate::number::{
    int_literal_value, int_to_chars, lemma_int_to_chars_shape, parse_i32, parses_as_i32, push_i32,
};
use crate::text::{
    first_at, lemma_first_at_is, lemma_split_on_step, lemma_split_on_whole, push_char, scan_for,
    split_on,
};

verus! {

/// Why a cookie value failed to decode.
#[derive(Clone, Copy, Debug, PartialEq, Eq, Structural)]
pub enum DecodeError {
    /// A comma-separated segment has no `:` separator.
    MalformedEntry,
    /// An id or a quantity is not a base-10 `i32`.
    InvalidNumber,
}

/// A segment is a well-formed pair: it has a colon, and the halves on
/// either side of the first colon are `i32` literals.
pub open spec fn seg_valid(seg: Seq<char>) -> bool {
    let m = first_at(seg, ':');
    m < seg.len() && parses_as_i32(seg.take(m as int)) && parses_as_i32(seg.skip(m as int + 1))
}

/// The product id a valid segment carries.
pub open spec fn seg_key(seg: Seq<char>) -> int {
    int_literal_value(seg.take(first_at(seg, ':') as int))
}

/// The quantity a valid segment carries.
pub open spec fn seg_qty(seg: Seq<char>) -> int {
    int_literal_value(seg.skip(first_at(seg, ':') as int + 1))
}

/// The error an invalid segment produces: a missing colon is a
/// malformed entry, anything else is a number that failed to parse.
pub open spec fn seg_error(seg: Seq<char>) -> DecodeError {
    if first_at(seg, ':') >= seg.len() {
        DecodeError::MalformedEntry
    } else {
        DecodeError::InvalidNumber
    }
}

/// The mapping a list of valid segments builds, in order, the last
/// occurrence of an id winning.
pub open spec fn map_of_segs(segs: Seq<Seq<char>>) -> Map<int, int>
    decreases segs.len(),
{
    if segs.len() == 0 {
        Map::empty()
    } else {
        map_of_segs(segs.drop_last()).insert(seg_key(segs.last()), seg_qty(segs.last()))
    }
}

/// Index of the first invalid segment, or `segs.len()` when all parse.
pub open spec fn first_invalid(segs: Seq<Seq<char>>) -> nat
    decreases segs.len(),
{
    if segs.len() == 0 {
        0
    } else if !seg_valid(segs[0]) {
        0
    } else {
        1 + first_invalid(segs.drop_first())
    }
}

/// What a cookie value denotes: the empty string is the empty cart;
/// otherwise every comma-separated segment must be a valid pair, and the
/// result is their mapping (last occurrence of an id wins). A bad
/// segment fails the whole decode with the error of the first one.
pub open spec fn decode_spec(s: Seq<char>) -> Result<Map<int, int>, DecodeError> {
    if s.len() == 0 {
        Ok(Map::empty())
    } else {
        let segs = split_on(s, ',');
        if forall|i: int| 0 <= i < segs.len() ==> seg_valid(#[trigger] segs[i]) {
            Ok(map_of_segs(segs))
        } else {
            Err(seg_error(segs[first_invalid(segs) as int]))
        }
    }
}

proof fn lemma_first_invalid_is(segs: Seq<Seq<char>>, k: int)
    requires
        0 <= k < segs.len(),
        forall|j: int| 0 <= j < k ==> seg_valid(#[trigger] segs[j]),
        !seg_valid(segs[k]),
    ensures
        first_invalid(segs) == k,
    decreases segs.len(),
{
    if k == 0 {
        assert(!seg_valid(segs[0]));
    } else {
        assert(seg_valid(segs[0]));
        assert forall|j: int| 0 <= j < k - 1 implies seg_valid(
            #[trigger] segs.drop_first()[j],
        ) by {
            assert(segs.drop_first()[j] == segs[j + 1]);
        }
        assert(segs.drop_first()[k - 1] == segs[k]);
        lemma_first_invalid_is(segs.drop_first(), k - 1);
    }
}

/// Decodes a cookie value into a cart.
///
/// Succeeds exactly on the strings `decode_spec` accepts and returns the
/// cart it describes; fails with exactly the error of the first bad
/// segment otherwise.
pub fn parse_cart_cookie(cart_cookie_value: &str) -> (r: Result<Cart, DecodeError>)
    ensures
        match r {
            Ok(c) => c.well_formed() && decode_spec(cart_cookie_value@) == Ok::<
                Map<int, int>,
                DecodeError,
            >(c@),
            Err(e) => decode_spec(cart_cookie_value@) == Err::<Map<int, int>, DecodeError>(e),
        },
{
    let s = cart_cookie_value;
    let n = s.unicode_len();
    let mut cart = Cart::new();
    if n == 0 {
        return Ok(cart);
    }
    let ghost segs = split_on(s@, ',');
    let mut pos: usize = 0;
    let ghost mut k: int = 0;
    proof {
        assert(s@.skip(0) =~= s@);
        assert(segs.skip(0) =~= segs);
    }
    loop
        invariant
            s@ == cart_cookie_value@,
            n == s@.len(),
            0 < n <= usize::MAX,
            pos <= n,
            0 <= k <= segs.len(),
            segs == split_on(s@, ','),
            segs.skip(k) == split_on(s@.skip(pos as int), ','),
            forall|j: int| 0 <= j < k ==> seg_valid(#[trigger] segs[j]),
            cart.well_formed(),
            cart@ == map_of_segs(segs.take(k)),
        decreases n - pos,
    {
        let end = scan_for(s, pos, n, ',');
        let ghost seg = s@.subrange(pos as int, end as int);
        proof {
            let rem = s@.skip(pos as int);
            assert forall|j: int| 0 <= j < end - pos implies rem[j] != ',' by {
                assert(rem[j] == s@[pos + j]);
            }
            if end < n {
                assert(rem[end - pos] == s@[end as int]);
            }
            lemma_first_at_is(rem, ',', end - pos);
            if end == n {
                assert(rem =~= seg);
                assert(split_on(rem, ',') == seq![rem]);
                assert(segs.skip(k).len() == segs.len() - k);
                assert(segs.len() == k + 1);
                assert(segs.skip(k)[0] == segs[k]);
                assert(seq![rem][0] == rem);
                assert(segs[k] == seg);
            } else {
                let rest = split_on(s@.skip(end + 1), ',');
                assert(rem.take(end - pos) =~= seg);
                assert(rem.skip(end - pos + 1) =~= s@.skip(end + 1));
                assert(split_on(rem, ',') == seq![seg] + rest);
                assert(segs.skip(k).len() == segs.len() - k);
                assert(segs.len() - k == 1 + rest.len());
                assert(segs.skip(k)[0] == segs[k]);
                assert((seq![seg] + rest)[0] == seg);
                assert(segs[k] == seg);
                assert forall|j: int| 0 <= j < rest.len() implies segs.skip(k + 1)[j] == rest[j] by {
                    assert(segs.skip(k + 1)[j] == segs[k + 1 + j]);
                    assert(segs.skip(k)[j + 1] == segs[k + 1 + j]);
                    assert((seq![seg] + rest)[j + 1] == rest[j]);
                }
                assert(segs.skip(k + 1) =~= rest);
            }
        }
        let colon = scan_for(s, pos, end, ':');
        proof {
            assert forall|j: int| 0 <= j < colon - pos implies seg[j] != ':' by {
                assert(seg[j] == s@[pos + j]);
            }
            if colon < end {
                assert(seg[colon - pos] == s@[colon as int]);
            }
            lemma_first_at_is(seg, ':', colon - pos);
        }
        if colon == end {
            proof {
                assert(!seg_valid(seg));
                lemma_first_invalid_is(segs, k);
            }
            return Err(DecodeError::MalformedEntry);
        }
        let id_str = s.substring_char(pos, colon);
        let qty_str = s.substring_char(colon + 1, end);
        proof {
            assert(seg.take(colon - pos) =~= s@.subrange(pos as int, colon as int));
            assert(seg.skip(colon - pos + 1) =~= s@.subrange(colon as int + 1, end as int));
        }
        let id: i32 = match parse_i32(id_str) {
            Some(v) => v,
            None => {
                proof {
                    assert(!seg_valid(seg));
                    lemma_first_invalid_is(segs, k);
                }
                return Err(DecodeError::InvalidNumber);
            },
        };
        let qty: i32 = match parse_i32(qty_str) {
            Some(v) => v,
            None => {
                proof {
                    assert(!seg_valid(seg));
                    lemma_first_invalid_is(segs, k);
                }
                return Err(DecodeError::InvalidNumber);
            },
        };
        cart.insert(id, qty);
        proof {
            assert(seg_valid(seg));
            assert(seg_key(seg) == id as int);
            assert(seg_qty(seg) == qty as int);
            assert(segs.take(k + 1).drop_last() =~= segs.take(k));
            assert(segs.take(k + 1).last() == segs[k]);
            assert(map_of_segs(segs.take(k + 1)) == map_of_segs(segs.take(k)).insert(
                seg_key(segs[k]),
                seg_qty(segs[k]),
            ));
            k = k + 1;
        }
        if end == n {
            proof {
                assert(segs.take(k) =~= segs);
            }
            return Ok(cart);
        }
        pos = end + 1;
    }
}

/// Decodes a cookie value, treating any decode failure as an empty cart:
/// a corrupt cookie never stops a page from rendering.
pub fn cart_from_cookie(raw: &str) -> (r: Cart)
    ensures
        r.well_formed(),
        match decode_spec(raw@) {
            Ok(m) => r@ == m,
            Err(_) => r@ =~= Map::<int, int>::empty(),
        },
{
    match parse_cart_cookie(raw) {
        Ok(c) => c,
        Err(_) => Cart::new(),
    }
}

/// The printed form of one entry: id, colon, quantity.
pub open spec fn pair_chars(id: int, qty: int) -> Seq<char> {
    int_to_chars(id) + seq![':'] + int_to_chars(qty)
}

/// The printed form of a list of entries, joined with commas.
pub open spec fn encode_chars(entries: Seq<CartEntry>) -> Seq<char>
    decreases entries.len(),
{
    if entries.len() == 0 {
        Seq::empty()
    } else if entries.len() == 1 {
        pair_chars(entries[0].product_id as int, entries[0].quantity as int)
    } else {
        pair_chars(entries[0].product_id as int, entries[0].quantity as int) + seq![',']
            + encode_chars(entries.drop_first())
    }
}

/// A printed pair holds no comma, and decodes back to its id and
/// quantity: the first colon sits right after the id, and both halves
/// parse as the numbers they were printed from.
proof fn lemma_pair_shape(id: i32, qty: i32)
    ensures
        pair_chars(id as int, qty as int).len() >= 3,
        forall|j: int|
            0 <= j < pair_chars(id as int, qty as int).len() ==> pair_chars(
                id as int,
                qty as int,
            )[j] != ',',
        seg_valid(pair_chars(id as int, qty as int)),
        seg_key(pair_chars(id as int, qty as int)) == id as int,
        seg_qty(pair_chars(id as int, qty as int)) == qty as int,
{
    let a = int_to_chars(id as int);
    let b = int_to_chars(qty as int);
    let p = pair_chars(id as int, qty as int);
    lemma_int_to_chars_shape(id as int);
    lemma_int_to_chars_shape(qty as int);
    assert forall|j: int| 0 <= j < p.len() implies p[j] != ',' by {
        if j < a.len() {
            assert(p[j] == a[j]);
        } else if j == a.len() {
            assert(p[j] == ':');
        } else {
            assert(p[j] == b[j - a.len() - 1]);
        }
    }
    assert forall|j: int| 0 <= j < a.len() implies p[j] != ':' by {
        assert(p[j] == a[j]);
    }
    assert(p[a.len() as int] == ':');
    lemma_first_at_is(p, ':', a.len() as int);
    assert(p.take(a.len() as int) =~= a);
    assert(p.skip(a.len() as int + 1) =~= b);
}

/// Appending an entry to a non-empty list appends a comma and its pair.
proof fn lemma_encode_snoc(e: Seq<CartEntry>)
    requires
        e.len() >= 2,
    ensures
        encode_chars(e) =~= encode_chars(e.drop_last()) + seq![','] + pair_chars(
            e.last().product_id as int,
            e.last().quantity as int,
        ),
    decreases e.len(),
{
    if e.len() == 2 {
        assert(e.drop_first().len() == 1);
        assert(encode_chars(e.drop_first()) == pair_chars(
            e.drop_first()[0].product_id as int,
            e.drop_first()[0].quantity as int,
        ));
        assert(e.drop_first()[0] == e[1]);
        assert(e.drop_last().len() == 1);
        assert(encode_chars(e.drop_last()) == pair_chars(
            e.drop_last()[0].product_id as int,
            e.drop_last()[0].quantity as int,
        ));
        assert(e.drop_last()[0] == e[0]);
        assert(e.last() == e[1]);
    } else {
        lemma_encode_snoc(e.drop_first());
        assert(e.drop_first().drop_last() =~= e.drop_last().drop_first());
        assert(e.drop_first().last() == e.last());
        assert(e.drop_last().len() >= 2);
        assert(encode_chars(e.drop_last()) == pair_chars(
            e.drop_last()[0].product_id as int,
            e.drop_last()[0].quantity as int,
        ) + seq![','] + encode_chars(e.drop_last().drop_first()));
        assert(e.drop_last()[0] == e[0]);
        assert(e.drop_first()[0] == e[1]);
    }
}

/// The segments of a printed entry list are exactly the printed pairs.
proof fn lemma_split_encode(e: Seq<CartEntry>)
    requires
        e.len() >= 1,
    ensures
        split_on(encode_chars(e), ',') =~= Seq::new(
            e.len(),
            |i: int| pair_chars(e[i].product_id as int, e[i].quantity as int),
        ),
    decreases e.len(),
{
    let pairs = Seq::new(e.len(), |i: int| pair_chars(e[i].product_id as int, e[i].quantity as int));
    let p0 = pair_chars(e[0].product_id as int, e[0].quantity as int);
    lemma_pair_shape(e[0].product_id, e[0].quantity);
    if e.len() == 1 {
        lemma_split_on_whole(p0, ',');
    } else {
        lemma_split_on_step(p0, encode_chars(e.drop_first()), ',');
        lemma_split_encode(e.drop_first());
        assert forall|i: int| 0 <= i < e.len() - 1 implies #[trigger] e.drop_first()[i] == e[i + 1] by {}
    }
}

/// The mapping read back from printed pairs is the mapping of the entries.
proof fn lemma_map_of_segs_pairs(e: Seq<CartEntry>)
    ensures
        map_of_segs(
            Seq::new(e.len(), |i: int| pair_chars(e[i].product_id as int, e[i].quantity as int)),
        ) =~= map_of(e),
    decreases e.len(),
{
    let pairs = Seq::new(e.len(), |i: int| pair_chars(e[i].product_id as int, e[i].quantity as int));
    if e.len() == 0 {
    } else {
        lemma_map_of_segs_pairs(e.drop_last());
        assert(pairs.drop_last() =~= Seq::new(
            e.drop_last().len(),
            |i: int| pair_chars(e.drop_last()[i].product_id as int, e.drop_last()[i].quantity as int),
        ));
        lemma_pair_shape(e.last().product_id, e.last().quantity);
        assert(pairs.last() == pair_chars(e.last().product_id as int, e.last().quantity as int));
    }
}

/// The round trip: a printed entry list always decodes, to exactly the
/// mapping of those entries.
pub proof fn lemma_decode_encode(e: Seq<CartEntry>)
    ensures
        decode_spec(encode_chars(e)) == Ok::<Map<int, int>, DecodeError>(map_of(e)),
{
    if e.len() == 0 {
        assert(map_of(e) =~= Map::<int, int>::empty());
    } else {
        let pairs = Seq::new(
            e.len(),
            |i: int| pair_chars(e[i].product_id as int, e[i].quantity as int),
        );
        lemma_split_encode(e);
        lemma_pair_shape(e[0].product_id, e[0].quantity);
        assert(encode_chars(e).len() > 0);
        assert forall|i: int| 0 <= i < split_on(encode_chars(e), ',').len() implies seg_valid(
            #[trigger] split_on(encode_chars(e), ',')[i],
        ) by {
            lemma_pair_shape(e[i].product_id, e[i].quantity);
            assert(split_on(encode_chars(e), ',')[i] == pairs[i]);
        }
        lemma_map_of_segs_pairs(e);
        assert(map_of_segs(split_on(encode_chars(e), ',')) == map_of(e));
    }
}

/// Encodes a cart into its cookie value.
///
/// The contract pins the text up to pair order, which is all the wire
/// format fixes: the output is `encode_chars` of some duplicate-free
/// entry sequence carrying exactly this cart's mapping — canonical
/// decimal numbers, a colon inside each pair, commas between pairs. It
/// therefore always decodes back to exactly this cart's mapping, and it
/// is empty exactly when the cart is.
pub fn encode_cart(cart: &Cart) -> (r: String)
    requires
        cart.well_formed(),
    ensures
        exists|es: Seq<CartEntry>|
            unique_ids(es) && map_of(es) == cart@ && r@ == encode_chars(es),
        decode_spec(r@) == Ok::<Map<int, int>, DecodeError>(cart@),
        (r@.len() == 0) <==> (cart@.dom() =~= Set::<int>::empty()),
{
    let ghost e = cart.entries@;
    let mut out = String::new();
    let mut i: usize = 0;
    while i < cart.entries.len()
        invariant
            e == cart.entries@,
            i <= e.len(),
            out@ == encode_chars(e.take(i as int)),
        decreases e.len() - i,
    {
        if i > 0 {
            push_char(&mut out, ',');
        }
        let entry = cart.entries[i];
        push_i32(&mut out, entry.product_id);
        push_char(&mut out, ':');
        push_i32(&mut out, entry.quantity);
        proof {
            let done = e.take(i as int + 1);
            assert(done[0] == e[0]);
            assert(done.last() == e[i as int]);
            if i == 0 {
                assert(done.len() == 1);
                assert(out@ =~= pair_chars(e[0].product_id as int, e[0].quantity as int));
            } else {
                lemma_encode_snoc(done);
                assert(done.drop_last() =~= e.take(i as int));
                assert(out@ =~= encode_chars(e.take(i as int)) + seq![','] + pair_chars(
                    e[i as int].product_id as int,
                    e[i as int].quantity as int,
                ));
            }
        }
        i = i + 1;
    }
    proof {
        assert(e.take(e.len() as int) =~= e);
        lemma_decode_encode(e);
        lemma_cart_model(cart);
        assert(unique_ids(e) && map_of(e) == cart@ && out@ == encode_chars(e));
        if e.len() == 0 {
            assert(cart@.dom() =~= Set::<int>::empty());
        } else {
            lemma_pair_shape(e[0].product_id, e[0].quantity);
            assert(encode_chars(e).len() > 0);
            assert(map_of(e).contains_key(e.last().product_id as int));
            assert(cart@.dom().contains(e.last().product_id as int));
        }
    }
    out
}

} // verus!


