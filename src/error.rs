use vstd::prelude::*;

verus! {

/// Why a book operation was refused.
#[derive(Clone, Debug, PartialEq, Eq)]
pub enum OrderBookError {
    /// The operation does not apply (a snapshot of another symbol, an
    /// unsupported snapshot version).
    InvalidOperation { message: String },
    /// No order with this id rests on the book.
    OrderNotFound { order_id: u128 },
    /// An order with this id already rests on the book.
    DuplicateOrderId { order_id: u128 },
    /// A post-only order would have traded on arrival.
    WouldCross { order_id: u128, price: u64 },
    /// A fill-or-kill order cannot be filled in full.
    CannotBeFullyFilled { order_id: u128, requested: u64, available: u64 },
    /// A market order found nothing to trade against.
    InsufficientLiquidity { order_id: u128, requested: u64 },
    /// A zero quantity, or one the level could not hold.
    InvalidQuantity { order_id: u128, quantity: u64 },
    /// The order expired before it reached the book.
    Expired { order_id: u128 },
    /// A snapshot package's checksum does not match its payload.
    ChecksumMismatch { expected: String, actual: String },
    /// A value could not be written out.
    SerializationError { message: String },
    /// A value could not be read back.
    DeserializationError { message: String },
}

} // verus!
