//! ULIDs: 26-character identifiers made of a 48-bit millisecond timestamp and
//! 80 random bits, both written in Crockford's base32, so that identifiers
//! sort by the time they were made.
pub mod alphabet;
pub mod assemble;
pub mod error;
pub mod increment;
pub mod monotonic;
pub mod random;
pub mod text;
pub mod time;

pub use alphabet::{index_of, symbol_at};
pub use assemble::ulid;
pub use error::UlidError;
pub use increment::{increment_base32, replace_char_at};
pub use monotonic::MonotonicContext;
pub use random::{encode_random, encode_random_default, random_char};
pub use time::{decode_time, encode_time};
