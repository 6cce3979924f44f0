//! Estimation of a camera sensor's response curve from bracketed
//! exposures of one scene.
//!
//! Histograms of two exposures are matched quantile by quantile into an
//! exposure mapping (`histogram`, `mapping`, `bracket`). A model of the
//! response curve, a baseline plus a few weighted basis curves (`emor`),
//! is fitted to the mappings by gradient descent (`fit`, `estimator`),
//! which its caller drives in batches of rounds (`schedule`). The fitted
//! weights give a curve that can be used as a table, inverted (`curve`)
//! and cut to the sensor's range (`export`), whose lower end images
//! taken with the lens covered give (`floor`).
//!
//! All numbers are fixed-point (`fixed`): every result is an exact
//! function of the inputs, with rounding and saturation stated in the
//! contracts. `labels` and `config` hold the vocabulary and the naming
//! rules of the colour configuration that the tables go into.

pub mod bracket;
pub mod config;
pub mod curve;
pub mod emor;
pub mod estimator;
pub mod export;
pub mod fit;
pub mod fixed;
pub mod floor;
pub mod histogram;
pub mod labels;
pub mod mapping;
pub mod root;
pub mod schedule;
