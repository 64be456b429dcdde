//! Stream adapters over the block codec: a writer that encodes bytes into a
//! sink of code units, and a reader that decodes code units from a source.
mod decoder_impl;
mod encoder_impl;

pub use crate::alphabet::Tables;
pub use crate::codec::DecoderError;
pub use self::decoder_impl::{Buffer, ReadDecoder, ReadError};
pub use self::encoder_impl::{BufferedJsString, ByRef, UnitSink, WriteEncoder};

