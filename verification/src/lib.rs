//! Verified core of a duplicate-file finder: deciding which copies to keep,
//! planning actions over confirmed duplicate groups, folder-level duplicate
//! detection, perceptual-image clustering and the small encoders and parsers
//! around them.

pub mod order;
pub mod text;
pub mod sort;
pub mod paths;
pub mod model;
pub mod select;
pub mod action;
pub mod folder_dedup;
pub mod folder_action;
pub mod perceptual;
pub mod hash;
pub mod cache;
pub mod fclones_import;
pub mod traversal;
pub mod device;
pub mod pipeline;
pub mod payload;
pub mod preview;
pub mod profiles;
pub mod cli;
pub mod report;
pub mod commands;
