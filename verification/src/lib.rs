//! Removal of substrings that repeat across a corpus of documents: given a
//! batch of texts and a minimum shared length, every span that lies under a
//! window occurring in at least two texts is deleted from each of them,
//! leaving the unique content of every document intact.
//!
//! The single-pass pipeline lives in [`string_filter_rolling_hash`], is
//! specified against the model in [`model`], and its laws are proved in
//! [`properties`].  The fingerprint-based search in [`dev`], [`optimizer`]
//! and [`filter`], and the direct character comparison in [`remake`] and
//! [`prefix_removal`], solve the same problem by other means.

pub mod byte_sliceable_trait;
pub mod dev;
pub mod filter;
pub mod has_len_trait;
pub mod hashing;
pub mod model;
pub mod optimizer;
pub mod prefix_removal;
pub mod properties;
pub mod remake;
pub mod string_filter_rolling_hash;
pub mod text;
