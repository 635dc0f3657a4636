//! DEFLATE (RFC 1951).
//!
//! The unpacker is given all quotas: the compression ratio has to be measured
//! on the output that is actually produced, since the size in a ZIP header is
//! whatever the maker of the archive wrote there.
use vstd::prelude::*;

pub mod bitreader;
pub mod bits;
pub mod bitwriter;
pub mod encode;
pub mod forest;
pub mod huffman;
pub mod inflate;
pub mod lz77;
pub mod rle;
pub mod roundtrip;
pub mod tables;
pub mod tree;
pub mod unpack_laws;

use crate::error::Error;
use crate::limits::Limits;

verus! {

/// How hard to compress.
#[derive(Debug, Clone, Copy, PartialEq, Eq, Structural)]
pub enum Level {
    /// No compression: stored blocks.
    Store,
    Fast,
    Default,
    Best,
}

impl Default for Level {
    fn default() -> (r: Self)
        ensures
            r == Level::Default,
    {
        Level::Default
    }
}

/// Unpacks a whole DEFLATE stream.
pub fn inflate(input: &[u8], limits: &Limits) -> (r: Result<Vec<u8>, Error>)
    ensures
        match inflate::inflated(input@, *limits) {
            Ok((data, _)) => r matches Ok(v) && v@ == data,
            Err(f) => r matches Err(e) && e == f.err,
        },
{
    let mut out: Vec<u8> = Vec::new();
    let ghost before = out@;
    match inflate_into(input, &mut out, limits) {
        Ok(_) => {
            proof {
                if let Ok((data, _)) = inflate::inflated(input@, *limits) {
                    assert(before + data =~= data);
                }
            }
            Ok(out)
        },
        Err(e) => Err(e),
    }
}

/// Unpacks a stream and appends the result to `out`.
///
/// Returns the number of input bytes that were read: the layer above needs it
/// to see that what follows the stream is what it expects.
pub fn inflate_into(input: &[u8], out: &mut Vec<u8>, limits: &Limits) -> (r: Result<usize, Error>)
    ensures
        match inflate::inflated(input@, *limits) {
            Ok((data, n)) => r matches Ok(k) && k == n && final(out)@ == old(out)@ + data,
            Err(f) => r == Err::<usize, Error>(f.err) && final(out)@ == old(out)@ + f.out,
        },
{
    inflate::inflate_into(input, out, limits)
}

/// Packs data into a DEFLATE stream that unpacks to it.
///
/// There is no error: packing cannot fail. [`Level::Store`] keeps the data as it
/// is, in stored blocks; no other level is ever longer than stored blocks make
/// it. The same data at the same level give the same stream.
#[must_use]
pub fn deflate(input: &[u8], level: Level) -> (r: Vec<u8>)
    ensures
        r@ == encode::packed(input@, level),
        encode::unpacks_to(r@, input@),
        level is Store || input@.len() > 0xFFFF_FFFF ==> encode::stored_stream(r@, input@),
        r@.len() <= input@.len() + 6 * (input@.len() / 32768 + 1),
{
    encode::compress(input, level)
}

} // verus!
