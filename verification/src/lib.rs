//! A bit-granular output stream: values of arbitrary width (1 to 64 bits,
//! signed or unsigned) are packed contiguously into a byte buffer, most
//! significant bit first, regardless of byte alignment.

pub mod model;
pub mod writer;

pub use writer::BitError;
pub use writer::BitWriter;
