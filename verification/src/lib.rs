//! Frequency histograms of one column of delimited text.
pub mod delimiter;
pub mod frequency;
pub mod histogram;
pub mod layout;
pub mod order;
pub mod text;
