//! Scalar value types of the book: prices, quantities, identifiers, clock
//! readings, and the side tag.

use vstd::prelude::*;

verus! {

/// A price in integer ticks of the instrument's fixed tick size.
pub type Price = u64;

/// An order quantity in integer lots of the instrument's fixed lot size.
pub type Quantity = u64;

/// A globally unique 128-bit order identifier.
pub type OrderId = u128;

/// A wall-clock reading in milliseconds; opaque to the matching logic.
pub type Timestamp = u64;

/// Side of an order, either Ask (sell) or Bid (buy).
#[derive(Debug, Clone, Copy, PartialEq, Eq, Structural)]
pub enum Side {
    Ask,
    Bid,
}

impl Side {
    /// The other side of the book.
    pub open spec fn spec_opposite(self) -> Side {
        match self {
            Side::Ask => Side::Bid,
            Side::Bid => Side::Ask,
        }
    }

    /// Returns the other side of the book.
    pub fn opposite(&self) -> (r: Side)
        ensures
            r == self.spec_opposite(),
    {
        match self {
            Side::Ask => Side::Bid,
            Side::Bid => Side::Ask,
        }
    }
}

/// The decimal digits of `n`, most significant first, as ASCII bytes.
pub open spec fn spec_digits(n: nat) -> Seq<u8>
    decreases n,
{
    if n < 10 {
        seq![(48 + n) as u8]
    } else {
        spec_digits(n / 10).push((48 + n % 10) as u8)
    }
}

fn push_digits(n: u64, out: &mut Vec<u8>)
    ensures
        final(out)@ == old(out)@ + spec_digits(n as nat),
    decreases n,
{
    if n < 10 {
        out.push(48 + n as u8);
        assert(out@ =~= old(out)@ + spec_digits(n as nat));
    } else {
        push_digits(n / 10, out);
        out.push(48 + (n % 10) as u8);
        assert(out@ =~= old(out)@ + spec_digits(n as nat));
    }
}

/// The ASCII decimal rendering of a price; the byte string from which the
/// stable id of a system-level order at that price is derived.
pub fn price_digits(p: Price) -> (r: Vec<u8>)
    ensures
        r@ == spec_digits(p as nat),
{
    let mut out: Vec<u8> = Vec::new();
    push_digits(p, &mut out);
    out
}

/// The id that name-based UUID generation assigns to a byte string under the
/// DNS namespace; a function of the bytes alone.
pub uninterp spec fn id_from_bytes(bytes: Seq<u8>) -> u128;

/// Relies on uuid::Uuid::new_v5: a version-5 UUID is the SHA-1 name-based id
/// of namespace and name, so for a fixed namespace it depends on the byte
/// string alone; equal byte strings always give equal ids.
#[verifier::external_body]
pub fn create_id_from_bytes(bytes: &[u8]) -> (r: OrderId)
    ensures
        r == id_from_bytes(bytes@),
{
    uuid::Uuid::new_v5(&uuid::Uuid::NAMESPACE_DNS, bytes).as_u128()
}

/// Relies on uuid::Uuid::now_v7: a fresh time-ordered UUID. Nothing is
/// promised of the value, which depends on the clock and on random state.
#[verifier::external_body]
pub fn create_order_id() -> (r: OrderId) {
    uuid::Uuid::now_v7().as_u128()
}

/// Relies on chrono::Utc::now: the current wall-clock time, converted to
/// milliseconds since the Unix epoch. Nothing is promised of the value.
#[verifier::external_body]
pub fn timestamp() -> (r: Timestamp) {
    chrono::Utc::now().timestamp_millis() as u64
}

} // verus!
