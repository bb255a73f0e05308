//! Decoder for a sectioned voxel-world save file.
//!
//! A file is a run of bracketed section headers, each followed by a body.
//! [`section`] splits the file; [`entry`] reads a body as lines of key and
//! value; [`chunk`] reads a body as a preamble and length-prefixed,
//! type-tagged chunk records; [`decode`] picks between the two by a mode
//! that the caller names. [`cursor`] is the forward-only reader they share,
//! [`le`] and [`text`] hold the calls into `byteorder` and into std's lossy
//! UTF-8 decoding, and [`sequencing`] proves that chained record streams
//! decode to their records in order.

pub mod chunk;
pub mod cursor;
pub mod decode;
pub mod entry;
pub mod error;
pub mod le;
pub mod section;
pub mod sequencing;
pub mod text;
