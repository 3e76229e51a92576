//! Features of time series.

pub mod cyclical;
pub mod ewma;
pub mod rolling;
