//! Verified core of the tintbox color-management library.

pub mod batched;
pub mod cgats;
pub mod context;
pub mod curve;
pub mod directory;
pub mod error;
pub mod formatters;
pub mod gamut;
pub mod header;
pub mod io;
pub mod link;
pub mod matshaper;
pub mod mlu;
pub mod lut;
pub mod named;
pub mod opt;
pub mod pipeline;
pub mod ps;
pub mod sig;
pub mod text;
pub mod virtuals;
