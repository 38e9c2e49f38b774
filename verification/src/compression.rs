//! The compression codecs that a chunk may name, and decompression to a
//! declared length.

use crate::errors::{Error, Fault};
use crate::text::same_text;
use vstd::prelude::*;
use vstd::slice::slice_to_vec;

verus! {

/// A compression codec.
#[derive(Clone, Copy, Debug, PartialEq, Eq, Structural)]
pub enum Codec {
    /// The payload is stored as it is.
    Identity,
    /// The payload is one bzip2 stream.
    Bz2,
    /// The payload is in the LZ4 frame format.
    Lz4,
}

/// The codec that a chunk means by `name`.
pub open spec fn codec_named(name: Seq<char>) -> Option<Codec> {
    if name == "none"@ {
        Some(Codec::Identity)
    } else if name == "bz2"@ {
        Some(Codec::Bz2)
    } else if name == "lz4"@ {
        Some(Codec::Lz4)
    } else {
        None
    }
}

/// What the LZ4 frame decoder of `lz4_flex` yields for `input`: the decoded
/// bytes, or `None` where it reports an error.
pub uninterp spec fn lz4_frame_decoded(input: Seq<u8>) -> Option<Seq<u8>>;

/// What the bzip2 stream decoder of `bzip2` yields for `input`: the decoded
/// bytes, or `None` where it reports an error.
pub uninterp spec fn bz2_decoded(input: Seq<u8>) -> Option<Seq<u8>>;

/// Runs `lz4_flex::frame::FrameDecoder` over `input` until it reports the
/// end. Nothing is claimed of the bytes but that they depend on `input`
/// alone: the result is [`lz4_frame_decoded`] of it.
#[verifier::external_body]
fn lz4_decode(input: &[u8]) -> (r: Option<Vec<u8>>)
    ensures
        match r {
            Some(v) => lz4_frame_decoded(input@) == Some(v@),
            None => lz4_frame_decoded(input@) is None,
        },
{
    let mut out: Vec<u8> = Vec::new();
    let mut decoder = lz4_flex::frame::FrameDecoder::new(input);
    match std::io::Read::read_to_end(&mut decoder, &mut out) {
        Ok(_) => Some(out),
        Err(_) => None,
    }
}

/// Runs `bzip2::read::BzDecoder` over `input` until it reports the end.
/// Nothing is claimed of the bytes but that they depend on `input` alone:
/// the result is [`bz2_decoded`] of it.
#[verifier::external_body]
fn bz2_decode(input: &[u8]) -> (r: Option<Vec<u8>>)
    ensures
        match r {
            Some(v) => bz2_decoded(input@) == Some(v@),
            None => bz2_decoded(input@) is None,
        },
{
    let mut out: Vec<u8> = Vec::new();
    let mut decoder = bzip2::read::BzDecoder::new(input);
    match std::io::Read::read_to_end(&mut decoder, &mut out) {
        Ok(_) => Some(out),
        Err(_) => None,
    }
}

/// What `codec` makes of `input`, before the length is checked.
pub open spec fn decoded(codec: Codec, input: Seq<u8>) -> Option<Seq<u8>> {
    match codec {
        Codec::Identity => Some(input),
        Codec::Bz2 => bz2_decoded(input),
        Codec::Lz4 => lz4_frame_decoded(input),
    }
}

/// A decoder's output, kept only when it has the declared length.
pub open spec fn of_length(output: Option<Seq<u8>>, expected: int) -> Option<Seq<u8>> {
    match output {
        Some(bytes) => if bytes.len() == expected {
            Some(bytes)
        } else {
            None
        },
        None => None,
    }
}

/// The payload of a chunk compressed with `codec`, declared to be `expected`
/// bytes long; `None` when the stream is corrupt or the length differs.
pub open spec fn decompressed(codec: Codec, input: Seq<u8>, expected: int) -> Option<Seq<u8>> {
    of_length(decoded(codec, input), expected)
}

impl Codec {
    /// Looks a codec up by the name that a chunk gives it. An unknown name
    /// fails with `UnsupportedCompression` and the name.
    pub fn from_name(name: &str) -> (r: Result<Codec, Error>)
        ensures
            match r {
                Ok(c) => codec_named(name@) == Some(c),
                Err(e) => codec_named(name@) is None && e@ == Fault::UnsupportedCompression(
                    name@,
                ),
            },
    {
        if same_text(name, "none") {
            Ok(Codec::Identity)
        } else if same_text(name, "bz2") {
            Ok(Codec::Bz2)
        } else if same_text(name, "lz4") {
            Ok(Codec::Lz4)
        } else {
            Err(Error::UnsupportedCompression(name.to_owned()))
        }
    }

    /// The name by which chunks refer to the codec.
    pub fn name(&self) -> (r: &'static str)
        ensures
            codec_named(r@) == Some(*self),
    {
        proof {
            reveal_strlit("none");
            reveal_strlit("bz2");
            reveal_strlit("lz4");
            assert("none"@.len() == 4 && "bz2"@.len() == 3 && "lz4"@.len() == 3);
            assert("bz2"@[0] == 'b' && "lz4"@[0] == 'l');
        }
        match self {
            Codec::Identity => "none",
            Codec::Bz2 => "bz2",
            Codec::Lz4 => "lz4",
        }
    }
}

/// Accepts a decoder's output when it has the declared length, and fails
/// with `DecompressionError` otherwise.
pub fn check_length(output: Option<Vec<u8>>, expected: usize) -> (r: Result<Vec<u8>, Error>)
    ensures
        match r {
            Ok(v) => output == Some(v) && v@.len() == expected,
            Err(e) => e@ == Fault::DecompressionError && (output is None || output->0@.len()
                != expected),
        },
{
    match output {
        Some(v) => if v.len() == expected {
            Ok(v)
        } else {
            Err(Error::DecompressionError)
        },
        None => Err(Error::DecompressionError),
    }
}

/// Decompresses `input` with `codec` to exactly `expected` bytes. A corrupt
/// stream or another length fails with `DecompressionError`.
pub fn decompress(codec: Codec, input: &[u8], expected: usize) -> (r: Result<Vec<u8>, Error>)
    ensures
        match r {
            Ok(v) => decompressed(codec, input@, expected as int) == Some(v@),
            Err(e) => e@ == Fault::DecompressionError && decompressed(
                codec,
                input@,
                expected as int,
            ) is None,
        },
{
    let output: Option<Vec<u8>> = match codec {
        Codec::Identity => Some(slice_to_vec(input)),
        Codec::Bz2 => bz2_decode(input),
        Codec::Lz4 => lz4_decode(input),
    };
    check_length(output, expected)
}

} // verus!
