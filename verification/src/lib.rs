//! Byte-exact lossless codecs for the compressed container formats used by
//! Nintendo 64 era titles: Yaz0, Yay0, MIO0, and a legacy DEFLATE variant
//! (a gzip derivative that emits only a gzip trailer, no header).
//!
//! Every compressor is a pure function from input bytes to output bytes; the
//! contracts pin each result down to a mathematical description of the
//! reference encoder's output, so two runs on the same input are provably
//! identical. The one quantity taken on trust is the CRC-32 the gzip trailer
//! carries: its value is a named, uninterpreted function of the input bytes,
//! computed by an outside routine.

pub mod gzip;
pub mod lz;
pub mod mio0;
pub mod utils;
pub mod yay0;
pub mod yaz0;

use vstd::prelude::*;

verus! {

/// The container formats the crate can pack and unpack through one entry
/// point.
#[derive(Copy, Clone, Debug, PartialEq, Eq, Hash, Structural)]
pub enum CompressionType {
    Yay0,
    Yaz0,
    Mio0,
}

/// What `CompressionType::decompress` returns for each format.
pub open spec fn compression_decompress_spec(t: CompressionType, b: Seq<u8>) -> Result<
    Seq<u8>,
    Crunch64Error,
> {
    match t {
        CompressionType::Yay0 => yay0::decompress_spec(b),
        CompressionType::Yaz0 => yaz0::decompress_spec(b),
        CompressionType::Mio0 => mio0::decompress_spec(b),
    }
}

/// What `CompressionType::compress` returns for each format.
pub open spec fn compression_compress_spec(t: CompressionType, b: Seq<u8>) -> Result<
    Seq<u8>,
    Crunch64Error,
> {
    match t {
        CompressionType::Yay0 => yay0::compress_spec(b),
        CompressionType::Yaz0 => yaz0::compress_spec(b),
        CompressionType::Mio0 => mio0::compress_spec(b),
    }
}

impl CompressionType {
    /// Decompresses `bytes` in this container format.
    pub fn decompress(self, bytes: &[u8]) -> (r: Result<Vec<u8>, Crunch64Error>)
        ensures
            r matches Ok(v) ==> compression_decompress_spec(self, bytes@) == Ok::<
                Seq<u8>,
                Crunch64Error,
            >(v@),
            r matches Err(e) ==> compression_decompress_spec(self, bytes@) == Err::<
                Seq<u8>,
                Crunch64Error,
            >(e),
    {
        match self {
            CompressionType::Yay0 => yay0::decompress(bytes),
            CompressionType::Yaz0 => yaz0::decompress(bytes),
            CompressionType::Mio0 => mio0::decompress(bytes),
        }
    }

    /// Compresses `bytes` into this container format.
    pub fn compress(self, bytes: &[u8]) -> (r: Result<Vec<u8>, Crunch64Error>)
        ensures
            r matches Ok(v) ==> compression_compress_spec(self, bytes@) == Ok::<
                Seq<u8>,
                Crunch64Error,
            >(v@),
            r matches Err(e) ==> compression_compress_spec(self, bytes@) == Err::<
                Seq<u8>,
                Crunch64Error,
            >(e),
    {
        match self {
            CompressionType::Yay0 => yay0::compress(bytes),
            CompressionType::Yaz0 => yaz0::compress(bytes),
            CompressionType::Mio0 => mio0::compress(bytes),
        }
    }
}

/// Determinism: what each codec returns is a function of the input bytes
/// alone — two runs on identical inputs produce identical outputs. The
/// executable functions ensure their results equal these specifications, so
/// the law carries over to them.
pub proof fn lemma_codecs_deterministic(t: CompressionType, b1: Seq<u8>, b2: Seq<u8>)
    requires
        b1 == b2,
    ensures
        compression_compress_spec(t, b1) == compression_compress_spec(t, b2),
        compression_decompress_spec(t, b1) == compression_decompress_spec(t, b2),
{
}

/// Decompresses a Yay0 file.
pub fn decompress_yay0(bytes: &[u8]) -> (r: Result<Vec<u8>, Crunch64Error>)
    ensures
        r matches Ok(v) ==> yay0::decompress_spec(bytes@) == Ok::<Seq<u8>, Crunch64Error>(v@),
        r matches Err(e) ==> yay0::decompress_spec(bytes@) == Err::<Seq<u8>, Crunch64Error>(e),
{
    yay0::decompress(bytes)
}

/// Compresses `bytes` into the Yay0 format.
pub fn compress_yay0(bytes: &[u8]) -> (r: Result<Vec<u8>, Crunch64Error>)
    ensures
        r matches Ok(v) ==> yay0::compress_spec(bytes@) == Ok::<Seq<u8>, Crunch64Error>(v@),
        r matches Err(e) ==> yay0::compress_spec(bytes@) == Err::<Seq<u8>, Crunch64Error>(e),
{
    yay0::compress(bytes)
}

/// Decompresses a Yaz0 file.
pub fn decompress_yaz0(bytes: &[u8]) -> (r: Result<Vec<u8>, Crunch64Error>)
    ensures
        r matches Ok(v) ==> yaz0::decompress_spec(bytes@) == Ok::<Seq<u8>, Crunch64Error>(v@),
        r matches Err(e) ==> yaz0::decompress_spec(bytes@) == Err::<Seq<u8>, Crunch64Error>(e),
{
    yaz0::decompress(bytes)
}

/// Compresses `bytes` into the Yaz0 format.
pub fn compress_yaz0(bytes: &[u8]) -> (r: Result<Vec<u8>, Crunch64Error>)
    ensures
        r matches Ok(v) ==> yaz0::compress_spec(bytes@) == Ok::<Seq<u8>, Crunch64Error>(v@),
        r matches Err(e) ==> yaz0::compress_spec(bytes@) == Err::<Seq<u8>, Crunch64Error>(e),
{
    yaz0::compress(bytes)
}

/// Error taxonomy shared by every codec in the crate.
#[derive(Copy, Clone, Debug, PartialEq, Eq, Hash, Structural)]
pub enum Crunch64Error {
    /// File does not begin with a Yay0 header
    InvalidYay0Header,
    /// File does not begin with a Yaz0 header
    InvalidYaz0Header,
    /// File does not begin with a MIO0 header
    InvalidMio0Header,
    /// The requested compression type has no such operation
    UnsupportedCompressionType,
    /// Big-endian read at an offset that is not a multiple of the width
    UnalignedRead,
    /// Slice to fixed-width conversion failed (defensive; not reachable here)
    ByteConversion,
    /// Read or write past the end of a buffer
    OutOfBounds,
    /// Gzip compression level outside the supported range
    InvalidCompressionLevel,
    /// MIO0 stream fields outside their permitted ranges
    CorruptData,
}

} // verus!
