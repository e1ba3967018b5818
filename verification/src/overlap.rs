pub mod dema;
pub mod ema;
