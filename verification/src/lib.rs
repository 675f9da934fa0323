//! A verified codec for the XDR wire format (RFC 4506): length-prefixed,
//! four-byte-aligned, big-endian binary encoding of structured values.
//!
//! The crate is organised bottom-up:
//! - [`encoding`] holds the mathematical description of the wire format:
//!   big-endian byte strings, two's-complement bit patterns and padding.
//! - [`streams`] holds the cursor-based byte reader and the append-only
//!   byte writer together with the error taxonomy.
//! - [`xdr_codec`] holds the codec contract every serializable type meets,
//!   with its implementations for the primitive types.
//! - [`compound_types`] holds the bounded containers that guard
//!   variable-length data against hostile length fields.

pub mod compound_types;
pub mod encoding;
pub mod streams;
pub mod xdr_codec;
