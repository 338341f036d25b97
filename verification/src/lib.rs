//! Conversion between the two encodings of a binary merge path, and
//! normalisation of tensor leg identifiers into textual labels.

pub mod decimal;
pub mod fx_tables;
pub mod label_laws;
pub mod labels;
pub mod path_model;
pub mod path_codec;
pub mod path_check;
pub mod path_laws;

pub use labels::{
    checked_tensor_legs_to_digit, first_unknown_leg, tensor_legs_to_digit, UnknownIdentifier,
};
pub use path_check::{
    checked_replace_to_ssa_path, checked_ssa_to_replace_path, is_well_formed_replace_path,
    is_well_formed_ssa_path, PathError,
};
pub use path_codec::{as_ssa_path, replace_to_ssa_path, ssa_to_replace_path};
