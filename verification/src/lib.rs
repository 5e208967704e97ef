//! Parsing and validation of general perturbations orbital data in the
//! Two-Line Element Set (TLE) format.
//!
//! The parser checks the layout of each line, the catalog numbers and the
//! checksums, reads the integers, the classification and the names, and hands
//! each real number back as the exact decimal text that the TLE writes for it,
//! once it has checked that `str::parse::<f64>` accepts that text.

pub mod epoch;
pub mod error;
pub mod lines;
pub mod literal;
pub mod text;
pub mod tle;

pub use epoch::j2000_days;
pub use error::Error;
pub use lines::parse_2les;
pub use lines::parse_3les;
pub use tle::Classification;
pub use tle::Elements;
pub use tle::EpochText;
pub use tle::ScaledDecimal;

use vstd::prelude::*;

verus! {

/// The result type returned by the parsing functions of this crate
pub type Result<T> = std::result::Result<T, Error>;

} // verus!
