//! A byte buffer that accepts writes at arbitrary, possibly out-of-order
//! offsets into one logically contiguous stream, keeps an exact ledger of
//! which ranges have been received and which are still missing, and
//! reassembles the final byte sequence once every range has been filled.

mod convert;
mod errors;
pub mod laws;
mod missing;
pub mod model;
mod out_of_order;
mod quilt;

pub use errors::Error;
pub use missing::MissingSegment;
pub use out_of_order::OutOfOrderBytes;
pub use quilt::BytesQuilt;
