//! An interpreter core for a two-dimensional, image-based stack language:
//! block extraction, navigation between colour blocks, and the
//! instruction set keyed by colour transitions.
pub mod decoder;
pub mod interpreter;
pub mod machine;
pub mod navigation;
pub mod types;
