//! Cart state codec for a server-rendered storefront.
//!
//! The shopping cart lives entirely in a client cookie, encoded as a
//! comma-separated list of `id:quantity` pairs. This crate holds the logic
//! that handles that state: the wire codec (decode and encode), the cart
//! operations (set a quantity with clamping, remove an entry), and the
//! totaling rules a checkout uses (per-line and grand totals rounded to
//! cents, entries without a catalog row dropped).

pub mod cart;
pub mod checkout;
pub mod codec;
pub mod number;
pub mod text;
