//! Reconstruction of the allocator-level structure of a captured memory
//! image of a fixed-size heap: a header region with free-list roots and a
//! table of block headers, followed by a data area.
//!
//! - [`layout`] decodes the header region.
//! - [`freelist`] follows the free lists that run through the block headers.
//! - [`classify`] decides what each block header stands for.
//! - [`headers`] reconstructs the classified table and trims its never-used
//!   tail.
//! - [`partition`] orders typed byte ranges and completes them to a gapless
//!   partition; [`segment`] applies it to the blocks of the data area,
//!   [`label`] to the labels that [`pattern`] finds for candidate strings and
//!   the words that point to them.
//! - [`residual`] records the bytes outside live text and checks them
//!   against expected text, which [`expectations`] reads from JSON.
//! - [`analysis`] runs the reconstruction of an image in one call.
//! - [`render`] shows bytes as printable text.
//!
//! Hard errors end a run ([`error::HeaderError`]); soft findings are
//! appended to a list that the caller passes along ([`error::Diagnostic`]).

pub mod analysis;
pub mod classify;
pub mod error;
pub mod expectations;
pub mod freelist;
pub mod headers;
pub mod label;
pub mod layout;
pub mod partition;
pub mod pattern;
pub mod render;
pub mod residual;
pub mod segment;
