//! The compression-encoding transform: payload bytes to base64 text of
//! their gzip compression, produced as one write-through chain so that no
//! buffer of the full compressed stream is kept.
//!
//! The transform itself is outside code; the names below stand for what its
//! stages return, and the wrapper's contract ties the produced text to
//! them.  Everything downstream of the transform is verified against that
//! contract.

use std::io::Write;

use vstd::prelude::*;

verus! {

/// What flate2's gzip compression at its best level makes of `data`.  The
/// stream it produces is a function of the input bytes alone: the header is
/// fixed (zero timestamp, operating-system byte 255) and the default rust
/// backend is deterministic.
pub uninterp spec fn gzip_best_of(data: Seq<u8>) -> Seq<u8>;

/// What gzip decompression makes of a byte stream: the decompressed bytes,
/// or nothing for a malformed stream.
pub uninterp spec fn gunzip_of(data: Seq<u8>) -> Option<Seq<u8>>;

/// What base64 (standard alphabet, padded) makes of `data`.
pub uninterp spec fn b64_of(data: Seq<u8>) -> Seq<u8>;

/// What base64 decoding (standard alphabet, padded) makes of `text`: the
/// decoded bytes, or nothing for text that is not valid base64.
pub uninterp spec fn b64_decode_of(text: Seq<u8>) -> Option<Seq<u8>>;

/// A byte of the standard base64 alphabet, or its `=` padding: all ASCII,
/// so the encoded payload never breaks the UTF-8 validity of the output.
pub open spec fn is_b64_byte(b: u8) -> bool {
    (65 <= b <= 90) || (97 <= b <= 122) || (48 <= b <= 57) || b == 43 || b == 47 || b == 61
}

/// Relies on flate2's `GzEncoder` (`Compression::best`) writing through
/// base64's `EncoderWriter` (`STANDARD` engine: RFC 4648, padded): the sink
/// collects exactly the base64 text of the gzip stream of `data` — padded,
/// so four bytes for every three of the stream; decoding that text yields
/// the gzip stream, and gunzipping the stream yields `data` again.  The
/// compressor is finished strictly before the encoder, completing the gzip
/// trailer and then the base64 padding.  The calls cannot fail: in both
/// crates every error path passes a failure of the underlying writer on,
/// and the sink here is an in-memory vector, whose writes always succeed —
/// the `expect`s guard that invariant.
#[verifier::external_body]
pub(crate) fn compress_encode(data: &[u8]) -> (enc: Vec<u8>)
    ensures
        enc@ == b64_of(gzip_best_of(data@)),
        b64_decode_of(enc@) == Some(gzip_best_of(data@)),
        gunzip_of(b64_decode_of(enc@)->Some_0) == Some(data@),
        forall|i: int| 0 <= i < enc@.len() ==> is_b64_byte(#[trigger] enc@[i]),
        enc@.len() == 4 * ((gzip_best_of(data@).len() + 2) / 3),
{
    let error = "write to an in-memory sink failed";
    let sink = base64::write::EncoderWriter::new(
        Vec::new(),
        &base64::engine::general_purpose::STANDARD,
    );
    let mut gz = flate2::write::GzEncoder::new(sink, flate2::Compression::best());
    gz.write_all(data).expect(error);
    gz.finish().expect(error).finish().expect(error)
}

} // verus!
