//! Whole-image operations: a parsed PPM record, and embedding or
//! extracting a message given a complete image byte stream.

use vstd::prelude::*;

verus! {

use crate::codec::{decode_message, decode_spec, encode_message, encode_spec, encode_capacity_ok,
    lemma_encode_decode_round_trip, lemma_encode_untouched_outside_region, CodecError};
use crate::header::{header_matches, header_ok, lemma_header_depends_on_prefix,
    lemma_pixel_start_bounds, parse_header, pixel_start, PPMError, PPMHeader};

/// A parsed PPM image: its header and the raw pixel bytes that follow it.
#[derive(Debug)]
pub struct PPM {
    pub header: PPMHeader,
    pub pixels: Vec<u8>,
}

/// Failure of a whole-image operation: either the header does not parse,
/// or the codec rejects the request.
#[derive(Debug)]
pub enum StegError {
    Header(PPMError),
    Codec(CodecError),
}

impl PPM {
    /// Splits a complete PPM byte stream into its parsed header and the
    /// pixel bytes that follow it.
    pub fn new(data: &[u8]) -> (r: Result<PPM, PPMError>)
        ensures
            match r {
                Ok(p) => {
                    &&& header_ok(data@)
                    &&& header_matches(p.header, data@)
                    &&& p.pixels@ == data@.skip(pixel_start(data@))
                },
                Err(e) => !header_ok(data@) && e is BadHeader,
            },
    {
        let (header, off) = match parse_header(data) {
            Ok(t) => t,
            Err(e) => {
                return Err(e);
            },
        };
        let pixels = vstd::slice::slice_to_vec(&data[off..data.len()]);
        proof {
            assert(data@.subrange(off as int, data@.len() as int) =~= data@.skip(
                pixel_start(data@),
            ));
        }
        Ok(PPM { header, pixels })
    }
}

/// Embeds `input` into the pixel region of the complete PPM stream
/// `data`: the header is parsed to find where pixel data starts, the
/// message is encoded there, and the whole stream — header unchanged,
/// pixel region patched — is returned as a new buffer of the same length.
pub fn manipulate_image_in_memory(input: &str, data: &[u8]) -> (r: Result<Vec<u8>, StegError>)
    requires
        vstd::string::is_ascii(input),
    ensures
        match r {
            Ok(out) => {
                &&& header_ok(data@)
                &&& input@.len() > 0
                &&& encode_capacity_ok(input@.len() as int, data@.len() as int, pixel_start(data@))
                &&& out@ == encode_spec(input@, data@, pixel_start(data@))
            },
            Err(e) => match e {
                StegError::Header(h) => !header_ok(data@) && h is BadHeader,
                StegError::Codec(c) => header_ok(data@) && ((input@.len() == 0 && c
                    == CodecError::EmptyMessageError) || (input@.len() > 0 && !encode_capacity_ok(
                    input@.len() as int,
                    data@.len() as int,
                    pixel_start(data@),
                ) && c == CodecError::CapacityError)),
            },
        },
{
    let (_header, off) = match parse_header(data) {
        Ok(t) => t,
        Err(e) => {
            return Err(StegError::Header(e));
        },
    };
    match encode_message(input, data, off) {
        Ok(out) => Ok(out),
        Err(e) => Err(StegError::Codec(e)),
    }
}

/// Extracts the message embedded in the complete PPM stream `data`: the
/// header is parsed to find where pixel data starts, and the pixel bytes
/// from there on are decoded until the terminator.
pub fn decode_message_from_bytes(data: &[u8]) -> (r: Result<String, StegError>)
    ensures
        match r {
            Ok(out) => {
                &&& header_ok(data@)
                &&& decode_spec(data@.skip(pixel_start(data@))) matches Ok(m) && out@ == m
            },
            Err(e) => match e {
                StegError::Header(h) => !header_ok(data@) && h is BadHeader,
                StegError::Codec(c) => header_ok(data@) && (decode_spec(
                    data@.skip(pixel_start(data@)),
                ) matches Err(c2) && c == c2),
            },
        },
{
    let (_header, off) = match parse_header(data) {
        Ok(t) => t,
        Err(e) => {
            return Err(StegError::Header(e));
        },
    };
    let pixel_region = &data[off..data.len()];
    proof {
        assert(pixel_region@ =~= data@.skip(pixel_start(data@)));
    }
    match decode_message(pixel_region) {
        Ok(out) => Ok(out),
        Err(e) => Err(StegError::Codec(e)),
    }
}

/// Law: whole-image round trip.  Embedding an ASCII message without the
/// terminator value into a well-formed image yields a well-formed image
/// with the same pixel-data offset — the header is untouched — and
/// decoding that image's pixel region yields the message again.
pub proof fn lemma_image_round_trip(m: Seq<char>, data: Seq<u8>)
    requires
        header_ok(data),
        forall|k: int| 0 <= k < m.len() ==> 1 <= (#[trigger] m[k]) as u32 <= 127,
        encode_capacity_ok(m.len() as int, data.len() as int, pixel_start(data)),
    ensures
        header_ok(encode_spec(m, data, pixel_start(data))),
        pixel_start(encode_spec(m, data, pixel_start(data))) == pixel_start(data),
        decode_spec(encode_spec(m, data, pixel_start(data)).skip(pixel_start(data))) == Ok::<
            Seq<char>,
            CodecError,
        >(m),
{
    let start = pixel_start(data);
    let out = encode_spec(m, data, start);
    lemma_pixel_start_bounds(data);
    assert forall|j: int| 0 <= j < start implies data[j] == out[j] by {
        lemma_encode_untouched_outside_region(m, data, start, j);
    }
    lemma_header_depends_on_prefix(data, out);
    lemma_encode_decode_round_trip(m, data, start);
}

} // verus!
