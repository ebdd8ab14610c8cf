//! Decoders for a 1990s game's asset container and geometry formats.
//!
//! The crate reads a whole archive image as bytes and exposes:
//! a sorted directory index with exact-name and directory+file lookup
//! (`pod_file`), a tagged-block binary model decoder (`model`), a
//! heightfield-to-mesh tessellator (`heightfield`), a shelf-packing
//! texture atlas builder (`atlas`), and a fixed-schema text parser for
//! entity catalogs and placements (`entities`).
//!
//! All geometry is kept in fixed-point integer coordinates; the scale
//! conventions are documented on each decoder. Callers that want
//! floating-point values divide by the documented denominators.

pub mod atlas;
pub mod bytes;
pub mod cstr;
pub mod entities;
pub mod error;
pub mod heightfield;
pub mod model;
pub mod order;
pub mod pod_file;
pub mod text;
