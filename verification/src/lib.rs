//! Technical-analysis indicator engine over ordered numeric price series.
//!
//! Prices are exact rationals; a series cell is either a value, a gap
//! (structurally absent), or a computed-but-invalid marker. The engines
//! (exponential and double-exponential moving averages, true range) are
//! pure value-to-value transforms with fully specified contracts.

pub mod overlap;
pub mod rational;
pub mod series;
pub mod utils;
pub mod volatility;
