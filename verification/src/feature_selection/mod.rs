//! Selection of features.

pub mod mutual_information_estimates;
pub mod mutual_information_laws;
pub mod mutual_information_selector;
pub mod ranking;
pub mod select_kbest;
pub mod select_percentile;
pub mod variance_laws;
