use vstd::prelude::*;

use crate::compression::CompressionFormat;

verus! {

/// Bytes in one megabyte, the unit of the chunk size.
pub const MEBIBYTE: usize = 1024 * 1024;

/// The settings of a run.
pub struct Args {
    /// The chunk size, in megabytes.
    pub chunk: usize,
    pub base_output_file: String,
    pub compression: Option<CompressionFormat>,
    /// The retention limit; `usize::MAX` when none was given.
    pub max_files: usize,
    /// Reserved: a command whose output would replace the input.
    pub execute_command: Option<String>,
}

/// Why settings were refused.
#[derive(Debug, Clone, Copy, PartialEq, Eq, Structural)]
pub enum ArgsError {
    ChunkNotPositive,
    ChunkTooLarge,
    MaxFilesNotPositive,
}

impl Args {
    pub open spec fn valid(&self) -> bool {
        &&& self.chunk > 0
        &&& self.chunk * MEBIBYTE <= usize::MAX
        &&& self.max_files > 0
    }

    /// Checks the settings: the chunk size and the retention limit must be
    /// positive, and the chunk size in bytes must fit in memory sizes. With
    /// no retention limit, every file is kept.
    pub fn new(
        chunk: usize,
        base_output_file: String,
        compression: Option<CompressionFormat>,
        max_files: Option<usize>,
        execute_command: Option<String>,
    ) -> (r: Result<Args, ArgsError>)
        ensures
            (r is Ok) <==> (chunk > 0 && chunk * MEBIBYTE <= usize::MAX && max_files != Some(0usize)),
            r matches Ok(a) ==> {
                &&& a.valid()
                &&& a.chunk == chunk
                &&& a.base_output_file@ == base_output_file@
                &&& a.compression == compression
                &&& a.max_files == match max_files {
                    Some(m) => m,
                    None => usize::MAX,
                }
                &&& a.execute_command == execute_command
            },
            r == Err::<Args, ArgsError>(ArgsError::ChunkNotPositive) <==> chunk == 0,
            r == Err::<Args, ArgsError>(ArgsError::ChunkTooLarge) <==> (chunk > 0 && chunk * MEBIBYTE
                > usize::MAX),
            r == Err::<Args, ArgsError>(ArgsError::MaxFilesNotPositive) <==> (chunk > 0 && chunk
                * MEBIBYTE <= usize::MAX && max_files == Some(0usize)),
    {
        if chunk == 0 {
            return Err(ArgsError::ChunkNotPositive);
        }
        if chunk > usize::MAX / MEBIBYTE {
            return Err(ArgsError::ChunkTooLarge);
        }
        let max_files = match max_files {
            Some(m) => {
                if m == 0 {
                    return Err(ArgsError::MaxFilesNotPositive);
                }
                m
            },
            None => usize::MAX,
        };
        Ok(Args { chunk, base_output_file, compression, max_files, execute_command })
    }

    /// The chunk size in bytes.
    pub fn chunk_bytes(&self) -> (r: usize)
        requires
            self.valid(),
        ensures
            r == self.chunk * MEBIBYTE,
            r > 0,
    {
        self.chunk * MEBIBYTE
    }
}

} // verus!
