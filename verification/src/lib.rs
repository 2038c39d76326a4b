//! Fraud detection by exact nearest-neighbour search over quantized transaction vectors.
//!
//! A payload becomes a vector of fourteen dimensions ([`vectorize`]), the vector becomes sixteen
//! bytes ([`quantize`]), and the five nearest stored vectors vote ([`search`]). The stored vectors
//! and their labels come from two artifacts ([`format`]) that are built offline ([`dataset`]) and
//! validated when they are loaded ([`state`]). Single-precision numbers are bit patterns with
//! exact arithmetic ([`single`], on [`rounding`]).

use vstd::prelude::*;

pub mod dataset;
pub mod datetime;
pub mod error;
pub mod format;
pub mod laws;
pub mod quantize;
pub mod rounding;
pub mod routes;
pub mod search;
pub mod single;
pub mod state;
pub mod text;
pub mod vectorize;

pub use dataset::{build, default_input_path, default_output_dir, BuildStats, InputCompression};
pub use error::ApiError;
pub use format::{
    dataset_byte_len, label_bit, labels_byte_len, read_references_header, write_references_header,
    LabelBitsetWriter, LABELS_BIT_PER_ENTRY, MAGIC, REFS_HEADER_LEN,
};
pub use quantize::quantize;
pub use search::{fraud_score, knn5, Top5};
pub use single::Single;
pub use state::{load_state, warmup, AppState, RefBytes};
pub use vectorize::{
    vectorize, Customer, LastTransaction, MccRisk, Merchant, Normalization, Payload, Terminal,
    Transaction,
};

verus! {

/// Dimensions of a transaction vector.
pub const DIMS: usize = 14;

/// Bytes of a stored vector: the dimensions, then zeroed padding.
pub const PAD: usize = 16;

/// Quantized form of a missing dimension.
pub const SENTINEL_I8: i8 = -1;

} // verus!
