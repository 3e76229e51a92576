//! Transformers of single columns and groups of columns.

pub mod binarizer;
pub mod calendar;
pub mod dates;
pub mod encoder;
pub mod encoder_loo;
pub mod holiday_encoder;
pub mod holiday_laws;
pub mod interaction_features;
pub mod kbins_discretizer;
pub mod kbins_laws;
pub mod text;
pub mod time_since;
