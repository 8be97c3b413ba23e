//! Order keys: strings over the base-62 alphabet whose plain lexicographic
//! order encodes the position of an item in an ordered list. Given two
//! neighbouring keys (or an open end), the library produces one or more new
//! keys that sort strictly between them.

pub mod alphabet;
pub mod batch;
pub mod codec;
pub mod errors;
pub mod keys;
pub mod midpoint;
pub mod order;
pub mod rank;

pub use batch::n_keys_between;
pub use codec::{decrement_int, get_int_len, get_int_part, increment_int, validate_int};
pub use keys::{key_between, key_digits, validate_order_key, KeyDigits};
pub use midpoint::midpoint;
