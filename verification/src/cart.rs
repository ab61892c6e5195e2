//! The in-memory cart: a mapping from product id to quantity.
//!
//! The cart is held as a vector of entries with pairwise distinct product
//! ids; its mathematical model is the finite map built by inserting the
//! entries in order (`map_of`). Quantities written through `set_quantity`
//! are clamped to `[1, 100]`; `remove` is an idempotent delete.

use vstd::prelude::*;

verus! {

/// One cart entry: a product id paired with a quantity.
#[derive(Clone, Copy, Debug, PartialEq, Eq, Structural)]
pub struct CartEntry {
    pub product_id: i32,
    pub quantity: i32,
}

/// The map described by a sequence of entries, later entries overwriting
/// earlier ones (last occurrence wins).
pub open spec fn map_of(entries: Seq<CartEntry>) -> Map<int, int>
    decreases entries.len(),
{
    if entries.len() == 0 {
        Map::empty()
    } else {
        map_of(entries.drop_last()).insert(
            entries.last().product_id as int,
            entries.last().quantity as int,
        )
    }
}

/// Some entry in `entries` carries the product id `k`.
pub open spec fn has_id(entries: Seq<CartEntry>, k: int) -> bool {
    exists|i: int| 0 <= i < entries.len() && (#[trigger] entries[i]).product_id == k
}

/// The product ids of `entries` are pairwise distinct.
pub open spec fn unique_ids(entries: Seq<CartEntry>) -> bool {
    forall|i: int, j: int|
        0 <= i < j < entries.len() ==> (#[trigger] entries[i]).product_id != (
        #[trigger] entries[j]).product_id
}

/// A requested quantity, forced into the inclusive range `[1, 100]`.
pub open spec fn clamp_quantity(q: int) -> int {
    if q < 1 {
        1
    } else if q > 100 {
        100
    } else {
        q
    }
}

/// The shopping cart: product id -> quantity, one entry per product.
#[derive(Debug)]
pub struct Cart {
    pub(crate) entries: Vec<CartEntry>,
}

/// Within the crate, the codec reasons about the entry vector itself;
/// this ties the abstract view and well-formedness back to it.
pub(crate) proof fn lemma_cart_model(c: &Cart)
    ensures
        c@ == map_of(c.entries@),
        c.well_formed() <==> unique_ids(c.entries@),
{
}

impl View for Cart {
    type V = Map<int, int>;

    closed spec fn view(&self) -> Map<int, int> {
        map_of(self.entries@)
    }
}

pub proof fn lemma_map_of_contains(entries: Seq<CartEntry>, k: int)
    ensures
        map_of(entries).contains_key(k) <==> has_id(entries, k),
    decreases entries.len(),
{
    if entries.len() > 0 {
        lemma_map_of_contains(entries.drop_last(), k);
        if entries.last().product_id == k {
            assert((entries[entries.len() - 1]).product_id == k);
        } else {
            if has_id(entries.drop_last(), k) {
                let i = choose|i: int|
                    0 <= i < entries.drop_last().len() && (#[trigger] entries.drop_last()[i]).product_id
                        == k;
                assert((entries[i]).product_id == k);
            }
            if has_id(entries, k) {
                let i = choose|i: int|
                    0 <= i < entries.len() && (#[trigger] entries[i]).product_id == k;
                assert((entries.drop_last()[i]).product_id == k);
            }
        }
    }
}

pub proof fn lemma_map_of_get(entries: Seq<CartEntry>, i: int)
    requires
        unique_ids(entries),
        0 <= i < entries.len(),
    ensures
        map_of(entries).contains_key(entries[i].product_id as int),
        map_of(entries)[entries[i].product_id as int] == entries[i].quantity as int,
    decreases entries.len(),
{
    if i == entries.len() - 1 {
    } else {
        lemma_map_of_get(entries.drop_last(), i);
        assert(entries.drop_last()[i] == entries[i]);
    }
}

proof fn lemma_map_of_update(entries: Seq<CartEntry>, j: int, q: i32)
    requires
        unique_ids(entries),
        0 <= j < entries.len(),
    ensures
        map_of(entries.update(j, CartEntry { product_id: entries[j].product_id, quantity: q }))
            =~= map_of(entries).insert(entries[j].product_id as int, q as int),
    decreases entries.len(),
{
    let updated = entries.update(j, CartEntry { product_id: entries[j].product_id, quantity: q });
    if j == entries.len() - 1 {
        assert(updated.drop_last() =~= entries.drop_last());
    } else {
        lemma_map_of_update(entries.drop_last(), j, q);
        assert(updated.drop_last() =~= entries.drop_last().update(
            j,
            CartEntry { product_id: entries[j].product_id, quantity: q },
        ));
        assert(updated.last() == entries.last());
    }
}

proof fn lemma_map_of_remove(entries: Seq<CartEntry>, j: int)
    requires
        unique_ids(entries),
        0 <= j < entries.len(),
    ensures
        map_of(entries.remove(j)) =~= map_of(entries).remove(entries[j].product_id as int),
    decreases entries.len(),
{
    let k = entries[j].product_id as int;
    if j == entries.len() - 1 {
        assert(entries.remove(j) =~= entries.drop_last());
        lemma_map_of_contains(entries.drop_last(), k);
        assert(!has_id(entries.drop_last(), k)) by {
            if has_id(entries.drop_last(), k) {
                let i = choose|i: int|
                    0 <= i < entries.drop_last().len() && (#[trigger] entries.drop_last()[i]).product_id
                        == k;
                assert((entries[i]).product_id == k);
            }
        }
    } else {
        lemma_map_of_remove(entries.drop_last(), j);
        assert(entries.remove(j).drop_last() =~= entries.drop_last().remove(j));
        assert(entries.remove(j).last() == entries.last());
    }
}

proof fn lemma_map_of_clamped(a: Seq<CartEntry>, b: Seq<CartEntry>)
    requires
        a.len() == b.len(),
        forall|j: int|
            0 <= j < a.len() ==> (#[trigger] b[j]).product_id == a[j].product_id && b[j].quantity
                as int == clamp_quantity(a[j].quantity as int),
    ensures
        map_of(b).dom() =~= map_of(a).dom(),
        forall|k: int|
            map_of(a).contains_key(k) ==> map_of(b)[k] == clamp_quantity(map_of(a)[k]),
    decreases a.len(),
{
    if a.len() > 0 {
        assert forall|j: int| 0 <= j < a.drop_last().len() implies (
        #[trigger] b.drop_last()[j]).product_id == a.drop_last()[j].product_id
            && b.drop_last()[j].quantity as int == clamp_quantity(
            a.drop_last()[j].quantity as int,
        ) by {
            assert(b.drop_last()[j] == b[j]);
            assert(a.drop_last()[j] == a[j]);
        }
        lemma_map_of_clamped(a.drop_last(), b.drop_last());
        assert(b.last() == b[a.len() - 1]);
        assert(a.last() == a[a.len() - 1]);
    }
}

impl Cart {
    /// The cart's representation is well formed: one entry per product id.
    pub closed spec fn well_formed(&self) -> bool {
        unique_ids(self.entries@)
    }

    /// Every quantity in the cart lies in the inclusive range `[1, 100]`.
    pub open spec fn quantities_in_range(&self) -> bool {
        forall|k: int| #[trigger] self@.contains_key(k) ==> 1 <= self@[k] <= 100
    }

    /// Creates an empty cart.
    pub fn new() -> (r: Cart)
        ensures
            r@ =~= Map::<int, int>::empty(),
            r.well_formed(),
    {
        Cart { entries: Vec::new() }
    }

    /// Index of the entry carrying `product_id`, if one exists.
    fn find_index(&self, product_id: i32) -> (r: Option<usize>)
        ensures
            match r {
                Some(j) => j < self.entries@.len() && self.entries@[j as int].product_id
                    == product_id,
                None => !has_id(self.entries@, product_id as int),
            },
    {
        let mut i: usize = 0;
        while i < self.entries.len()
            invariant
                i <= self.entries@.len(),
                forall|j: int|
                    0 <= j < i ==> (#[trigger] self.entries@[j]).product_id != product_id,
            decreases self.entries@.len() - i,
        {
            if self.entries[i].product_id == product_id {
                return Some(i);
            }
            i = i + 1;
        }
        None
    }

    /// Writes `quantity` for `product_id` as given, overwriting any earlier
    /// entry. The decoder uses this: decoded quantities are stored unclamped.
    pub(crate) fn insert(&mut self, product_id: i32, quantity: i32)
        requires
            old(self).well_formed(),
        ensures
            final(self).well_formed(),
            final(self)@ =~= old(self)@.insert(product_id as int, quantity as int),
    {
        match self.find_index(product_id) {
            Some(j) => {
                proof {
                    lemma_map_of_update(self.entries@, j as int, quantity);
                }
                self.entries.set(j, CartEntry { product_id, quantity });
            },
            None => {
                proof {
                    assert(self.entries@.push(CartEntry { product_id, quantity }).drop_last()
                        =~= self.entries@);
                }
                self.entries.push(CartEntry { product_id, quantity });
            },
        }
    }

    /// Sets the quantity for `product_id`, clamped to `[1, 100]`; inserts
    /// the entry when absent, overwrites it when present.
    pub fn set_quantity(&mut self, product_id: i32, requested: i32)
        requires
            old(self).well_formed(),
        ensures
            final(self).well_formed(),
            final(self)@ =~= old(self)@.insert(product_id as int, clamp_quantity(requested as int)),
    {
        let clamped: i32 = if requested < 1 {
            1
        } else if requested > 100 {
            100
        } else {
            requested
        };
        self.insert(product_id, clamped);
    }

    /// Removes the entry for `product_id`; a no-op when it is absent.
    pub fn remove(&mut self, product_id: i32)
        requires
            old(self).well_formed(),
        ensures
            final(self).well_formed(),
            final(self)@ =~= old(self)@.remove(product_id as int),
    {
        match self.find_index(product_id) {
            Some(j) => {
                proof {
                    lemma_map_of_remove(self.entries@, j as int);
                    assert forall|a: int, b: int|
                        0 <= a < b < self.entries@.remove(j as int).len() implies (
                    #[trigger] self.entries@.remove(j as int)[a]).product_id != (
                    #[trigger] self.entries@.remove(j as int)[b]).product_id by {
                        let e = self.entries@;
                        let ra = if a < j { a } else { a + 1 };
                        let rb = if b < j { b } else { b + 1 };
                        assert(e.remove(j as int)[a] == e[ra]);
                        assert(e.remove(j as int)[b] == e[rb]);
                    }
                }
                self.entries.remove(j);
            },
            None => {
                proof {
                    lemma_map_of_contains(self.entries@, product_id as int);
                    assert(self@ =~= old(self)@.remove(product_id as int));
                }
            },
        }
    }

    /// A copy of the cart with every quantity clamped into `[1, 100]`:
    /// restores the data-model invariant over the same set of products,
    /// for a cart decoded from a cookie that was written out of range.
    pub fn clamped(&self) -> (r: Cart)
        requires
            self.well_formed(),
        ensures
            r.well_formed(),
            r.quantities_in_range(),
            r@.dom() =~= self@.dom(),
            forall|k: int| self@.contains_key(k) ==> r@[k] == clamp_quantity(self@[k]),
    {
        let mut entries: Vec<CartEntry> = Vec::new();
        let mut i: usize = 0;
        while i < self.entries.len()
            invariant
                i <= self.entries@.len(),
                entries@.len() == i,
                forall|j: int|
                    0 <= j < i ==> (#[trigger] entries@[j]).product_id
                        == self.entries@[j].product_id && entries@[j].quantity as int
                        == clamp_quantity(self.entries@[j].quantity as int),
            decreases self.entries@.len() - i,
        {
            let e = self.entries[i];
            let q: i32 = if e.quantity < 1 {
                1
            } else if e.quantity > 100 {
                100
            } else {
                e.quantity
            };
            entries.push(CartEntry { product_id: e.product_id, quantity: q });
            i = i + 1;
        }
        proof {
            lemma_map_of_clamped(self.entries@, entries@);
            assert forall|a: int, b: int| 0 <= a < b < entries@.len() implies (
            #[trigger] entries@[a]).product_id != (#[trigger] entries@[b]).product_id by {
                assert(self.entries@[a].product_id != self.entries@[b].product_id);
            }
            assert forall|k: int|
                #[trigger] map_of(entries@).contains_key(k) implies 1 <= map_of(entries@)[k]
                <= 100 by {
                assert(map_of(self.entries@).contains_key(k));
            }
        }
        Cart { entries }
    }

    /// The quantity stored for `product_id`, if the entry is present.
    pub fn get(&self, product_id: i32) -> (r: Option<i32>)
        requires
            self.well_formed(),
        ensures
            match r {
                Some(q) => self@.contains_key(product_id as int) && self@[product_id as int] == q
                    as int,
                None => !self@.contains_key(product_id as int),
            },
    {
        proof {
            lemma_map_of_contains(self.entries@, product_id as int);
        }
        match self.find_index(product_id) {
            Some(j) => {
                proof {
                    lemma_map_of_get(self.entries@, j as int);
                }
                Some(self.entries[j].quantity)
            },
            None => None,
        }
    }

    /// Whether the cart has no entries.
    pub fn is_empty(&self) -> (r: bool)
        ensures
            r <==> self@.dom() =~= Set::<int>::empty(),
    {
        proof {
            if self.entries@.len() > 0 {
                assert(map_of(self.entries@).contains_key(
                    self.entries@.last().product_id as int,
                ));
            }
        }
        self.entries.len() == 0
    }

    /// The product ids currently in the cart, each exactly once.
    pub fn ids(&self) -> (r: Vec<i32>)
        requires
            self.well_formed(),
        ensures
            forall|i: int| 0 <= i < r@.len() ==> self@.contains_key((#[trigger] r@[i]) as int),
            forall|k: int| #[trigger] self@.contains_key(k) ==> exists|i: int|
                0 <= i < r@.len() && r@[i] as int == k,
            forall|i: int, j: int| 0 <= i < j < r@.len() ==> r@[i] != r@[j],
    {
        let mut r: Vec<i32> = Vec::new();
        let mut i: usize = 0;
        while i < self.entries.len()
            invariant
                self.well_formed(),
                i <= self.entries@.len(),
                r@.len() == i,
                forall|j: int| 0 <= j < i ==> r@[j] == (#[trigger] self.entries@[j]).product_id,
            decreases self.entries@.len() - i,
        {
            r.push(self.entries[i].product_id);
            i = i + 1;
        }
        proof {
            assert forall|i2: int| 0 <= i2 < r@.len() implies self@.contains_key(
                (#[trigger] r@[i2]) as int,
            ) by {
                lemma_map_of_get(self.entries@, i2);
            }
            assert forall|k: int| #[trigger] self@.contains_key(k) implies exists|i2: int|
                0 <= i2 < r@.len() && r@[i2] as int == k by {
                lemma_map_of_contains(self.entries@, k);
                let w = choose|w: int|
                    0 <= w < self.entries@.len() && (#[trigger] self.entries@[w]).product_id == k;
                assert(r@[w] as int == k);
            }
            assert forall|a: int, b: int| 0 <= a < b < r@.len() implies r@[a] != r@[b] by {
                assert(r@[a] == (self.entries@[a]).product_id);
                assert(r@[b] == (self.entries@[b]).product_id);
            }
        }
        r
    }
}

} // verus!
