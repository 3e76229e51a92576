//! Feature engineering over tabular data.

pub mod calculus;
pub mod count;
pub mod double;
pub mod doubles;
pub mod draft;
pub mod error;
pub mod feature_selection;
pub mod frame;
pub mod order;
pub mod preprocessing;
pub mod program;
pub mod reals;
pub mod tally;
pub mod text;
pub mod time_series;
pub mod util;
