//! Rateless invertible Bloom lookup tables for set reconciliation over a
//! one-way stream.
//!
//! Two parties each hold a set of items, all `N` bytes wide. An
//! [`encoder::Encoder`] turns a set into an unbounded stream of coded
//! symbols; a [`decoder::Decoder`] takes the streams of both parties pair by
//! pair and peels pure cells until it has recovered the items that only one
//! of the parties holds. How many symbols that takes grows with the number of
//! those items, not with the size of the sets.
//!
//! * [`symbol`]: the coded symbol and the group that symbols form;
//! * [`digest`]: item checksums and bytewise XOR;
//! * [`rng`], [`wide`], [`index`]: the index schedule of an item;
//! * [`coding`]: what a stream holds at each index, and what follows from it;
//! * [`binaryheap`]: the heap that encoder and decoder keep their work in;
//! * [`encoder`], [`stream`]: two encoders that give the same stream;
//! * [`decoder`], [`diff`]: the decoder and its results;
//! * [`reconcile`]: what the decoder makes of the streams of two sets.

pub mod binaryheap;
pub mod coding;
pub mod decoder;
pub mod diff;
pub mod digest;
pub mod encoder;
pub mod index;
pub mod reconcile;
pub mod rng;
pub mod stream;
pub mod symbol;
pub mod wide;
