use vstd::prelude::*;

use crate::chunker::{chunks_of, concat, lemma_chunks_concat, Chunk};
use crate::compression::{encode, encoded, suffix_of, CompressionFormat, EncodeError};
use crate::naming::{file_name, file_name_of};

verus! {

/// A file ready to be written: its name and its contents.
pub struct FileOutput {
    pub name: String,
    pub bytes: Vec<u8>,
}

/// The work for one chunk: the name of its file without the suffix, its
/// bytes, and the format to encode them in.
pub struct Compressor {
    pub file_name: String,
    pub buffer: Vec<u8>,
    pub compression: CompressionFormat,
}

impl Compressor {
    pub fn new(file_name: String, buffer: Vec<u8>, compression: CompressionFormat) -> (r: Compressor)
        ensures
            r.file_name@ == file_name@,
            r.buffer@ == buffer@,
            r.compression == compression,
    {
        Compressor { file_name, buffer, compression }
    }

    /// The work for a chunk of the stream, under the base output path.
    pub fn for_chunk(base: &str, chunk: Chunk, compression: CompressionFormat) -> (r: Compressor)
        ensures
            r.file_name@ == file_name_of(base@, chunk.sequence_number as nat, CompressionFormat::Uncompressed),
            r.buffer@ == chunk.bytes@,
            r.compression == compression,
    {
        let name = file_name(base, chunk.sequence_number, CompressionFormat::Uncompressed);
        Compressor { file_name: name, buffer: chunk.bytes, compression }
    }

    /// The file to write: the name with the format's suffix appended, and
    /// the encoded bytes.
    pub fn output(self) -> (r: Result<FileOutput, EncodeError>)
        ensures
            r matches Ok(out) && out.name@ == self.file_name@ + suffix_of(self.compression)
                && out.bytes@ == encoded(self.compression, self.buffer@),
    {
        let mut name = self.file_name;
        name.append(self.compression.suffix());
        match encode(self.compression, self.buffer) {
            Ok(bytes) => Ok(FileOutput { name, bytes }),
            Err(e) => Err(e),
        }
    }
}

/// The file that holds a chunk: named `{base}.{sequence}{suffix}`, holding
/// the chunk's bytes encoded in the format.
pub fn produce(base: &str, chunk: Chunk, compression: CompressionFormat) -> (r: Result<FileOutput, EncodeError>)
    ensures
        r matches Ok(out) && out.name@ == file_name_of(base@, chunk.sequence_number as nat, compression)
            && out.bytes@ == encoded(compression, chunk.bytes@),
{
    let ghost sequence = chunk.sequence_number as nat;
    let ghost bytes = chunk.bytes@;
    let r = Compressor::for_chunk(base, chunk, compression).output();
    proof {
        assert(suffix_of(CompressionFormat::Uncompressed) =~= Seq::<char>::empty());
        assert(file_name_of(base@, sequence, CompressionFormat::Uncompressed) + suffix_of(compression)
            =~= file_name_of(base@, sequence, compression));
    }
    r
}

/// Without compression, the files of a stream hold its chunks as they are,
/// so joining them in sequence order gives the stream back.
pub proof fn lemma_uncompressed_files_join_to_input(data: Seq<u8>, chunk_size: nat)
    requires
        chunk_size > 0,
    ensures
        concat(
            chunks_of(data, chunk_size).map_values(
                |chunk: Seq<u8>| encoded(CompressionFormat::Uncompressed, chunk),
            ),
        ) == data,
{
    let chunks = chunks_of(data, chunk_size);
    assert(chunks.map_values(|chunk: Seq<u8>| encoded(CompressionFormat::Uncompressed, chunk))
        =~= chunks);
    lemma_chunks_concat(data, chunk_size);
}

} // verus!
