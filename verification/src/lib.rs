//! Scans a binary buffer for byte-pattern signatures, extracts candidate
//! AES key material next to each match, scores candidates by the Shannon
//! entropy of their hex encoding (in an integer fixed-point scale), and
//! returns the accepted candidates sorted by entropy, best first.

pub mod engine;
pub mod entropy;
pub mod hexstr;
pub mod pattern;
pub mod results;
pub mod scan;
pub mod utils;

pub use hexstr::bytes_to_hex;
pub use utils::path_buf_ends_with;
