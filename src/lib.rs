//! Rolling volume-at-price histograms over aligned price and volume series.
//!
//! Prices are integer ticks and volumes integer units, so every bin boundary,
//! bin volume and share is exact: a label is the rational price
//! `base + num / den`, and a bin's share of its window is `volume / total`.
pub mod binner;
pub mod driver;
pub mod params;
pub mod topn;
