use vstd::prelude::*;

verus! {

/// The byte encoding applied to a chunk before it is written.
#[derive(Debug, Clone, Copy, PartialEq, Eq, Structural)]
pub enum CompressionFormat {
    Gz,
    Xz,
    Uncompressed,
}

/// The suffix that a file name carries for a format.
pub open spec fn suffix_of(format: CompressionFormat) -> Seq<char> {
    match format {
        CompressionFormat::Gz => seq!['.', 'g', 'z'],
        CompressionFormat::Xz => seq!['.', 'x', 'z'],
        CompressionFormat::Uncompressed => Seq::empty(),
    }
}

/// What the gzip encoder makes of a buffer (default level, no header fields).
pub uninterp spec fn gzip_of(data: Seq<u8>) -> Seq<u8>;

/// What the xz encoder makes of a buffer (preset 9, CRC64 check).
pub uninterp spec fn xz_of(data: Seq<u8>) -> Seq<u8>;

/// The bytes that `encode` produces for a format, when the encoder succeeds.
pub open spec fn encoded(format: CompressionFormat, data: Seq<u8>) -> Seq<u8> {
    match format {
        CompressionFormat::Gz => gzip_of(data),
        CompressionFormat::Xz => xz_of(data),
        CompressionFormat::Uncompressed => data,
    }
}

/// The encoder of a format reported an error.
#[derive(Debug, Clone, Copy, PartialEq, Eq, Structural)]
pub struct EncodeError {
    pub format: CompressionFormat,
}

impl CompressionFormat {
    pub fn suffix(&self) -> (r: &'static str)
        ensures
            r@ == suffix_of(*self),
    {
        proof {
            reveal_strlit(".gz");
            reveal_strlit(".xz");
            reveal_strlit("");
        }
        match self {
            CompressionFormat::Gz => ".gz",
            CompressionFormat::Xz => ".xz",
            CompressionFormat::Uncompressed => "",
        }
    }
}

/// Relies on flate2's `bufread::GzEncoder` at the default level, read to the
/// end: the header carries no time stamp (mtime 0) and a fixed OS byte (255),
/// so the output depends on the input bytes alone. Reading a slice never
/// fails, and the deflate stream reports an error only when its own state is
/// corrupt, so the read succeeds.
#[verifier::external_body]
fn gzip_encode(data: &[u8]) -> (r: Option<Vec<u8>>)
    ensures
        r is Some,
        r matches Some(v) ==> v@ == gzip_of(data@),
{
    let mut encoder = flate2::bufread::GzEncoder::new(data, flate2::Compression::default());
    let mut out = Vec::new();
    match std::io::Read::read_to_end(&mut encoder, &mut out) {
        Ok(_) => Some(out),
        Err(_) => None,
    }
}

/// Relies on xz2's `read::XzEncoder` at preset 9 with the bundled liblzma,
/// read to the end: the output depends on the input bytes alone. Reading a
/// slice never fails, and the encoder unwraps liblzma's status rather than
/// returning an error, so the read succeeds.
#[verifier::external_body]
fn xz_encode(data: &[u8]) -> (r: Option<Vec<u8>>)
    ensures
        r is Some,
        r matches Some(v) ==> v@ == xz_of(data@),
{
    let mut encoder = xz2::read::XzEncoder::new(data, 9);
    let mut out = Vec::new();
    match std::io::Read::read_to_end(&mut encoder, &mut out) {
        Ok(_) => Some(out),
        Err(_) => None,
    }
}

/// Encodes a buffer in the given format. `Uncompressed` hands the bytes back
/// as they are. Encoding an in-memory buffer always succeeds, so equal inputs
/// give equal outputs.
pub fn encode(format: CompressionFormat, data: Vec<u8>) -> (r: Result<Vec<u8>, EncodeError>)
    ensures
        r matches Ok(v) && v@ == encoded(format, data@),
{
    match format {
        CompressionFormat::Uncompressed => Ok(data),
        CompressionFormat::Gz => match gzip_encode(data.as_slice()) {
            Some(v) => Ok(v),
            None => Err(EncodeError { format }),
        },
        CompressionFormat::Xz => match xz_encode(data.as_slice()) {
            Some(v) => Ok(v),
            None => Err(EncodeError { format }),
        },
    }
}

/// Encoding with no compression is the identity, for every buffer.
pub proof fn lemma_encode_uncompressed_is_identity(data: Seq<u8>)
    ensures
        encoded(CompressionFormat::Uncompressed, data) == data,
{
}

} // verus!
