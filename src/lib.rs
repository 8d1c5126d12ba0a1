//! Conversion of AVR chip descriptions (module / instance / register-group trees)
//! into a normalized, address-resolved register map.

pub mod atdf;
pub mod chip;
pub mod element;
pub mod error;
pub mod name_map;
pub mod svd;
pub mod text;
pub mod util;
