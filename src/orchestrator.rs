use vstd::prelude::*;

use crate::args::Args;
use crate::chunker::Chunker;
use crate::compression::CompressionFormat;
use crate::naming::file_name_of;
use crate::producer::Compressor;

verus! {

/// The format in which a run writes its files.
pub open spec fn format_of(compression: Option<CompressionFormat>) -> CompressionFormat {
    match compression {
        Some(f) => f,
        None => CompressionFormat::Uncompressed,
    }
}

/// Drives the chunker over the input and decides, for each byte, whether a
/// producer is to be started and with what work.
pub struct Orchestrator {
    chunker: Chunker,
    base: String,
    compression: CompressionFormat,
}

impl Orchestrator {
    pub closed spec fn wf(&self) -> bool {
        self.chunker.wf()
    }

    /// The bytes read so far.
    pub closed spec fn consumed(&self) -> Seq<u8> {
        self.chunker.consumed()
    }

    /// The bytes read since the last producer was started.
    pub closed spec fn pending(&self) -> Seq<u8> {
        self.chunker.pending()
    }

    pub closed spec fn spec_chunk_size(&self) -> nat {
        self.chunker.spec_chunk_size()
    }

    /// The sequence number of the next chunk.
    pub closed spec fn spec_next_sequence(&self) -> nat {
        self.chunker.spec_next_sequence()
    }

    pub closed spec fn base(&self) -> Seq<char> {
        self.base@
    }

    pub closed spec fn format(&self) -> CompressionFormat {
        self.compression
    }

    pub fn new(args: &Args) -> (r: Orchestrator)
        requires
            args.valid(),
        ensures
            r.wf(),
            r.consumed() == Seq::<u8>::empty(),
            r.pending() == Seq::<u8>::empty(),
            r.spec_next_sequence() == 0,
            r.spec_chunk_size() == args.chunk * crate::args::MEBIBYTE,
            r.base() == args.base_output_file@,
            r.format() == format_of(args.compression),
    {
        let compression = match args.compression {
            Some(f) => f,
            None => CompressionFormat::Uncompressed,
        };
        Orchestrator {
            chunker: Chunker::new(args.chunk_bytes()),
            base: args.base_output_file.clone(),
            compression,
        }
    }

    /// Whether another byte can be taken: sequence numbers are not exhausted.
    pub fn can_take(&self) -> (r: bool)
        ensures
            r == (self.spec_next_sequence() < usize::MAX),
    {
        self.chunker.next_sequence() < usize::MAX
    }

    /// Takes one byte of input. When it completes a chunk, the work for the
    /// producer of that chunk is handed out.
    pub fn on_byte(&mut self, byte: u8) -> (r: Option<Compressor>)
        requires
            old(self).wf(),
            old(self).spec_next_sequence() < usize::MAX,
        ensures
            final(self).wf(),
            final(self).consumed() == old(self).consumed().push(byte),
            final(self).spec_chunk_size() == old(self).spec_chunk_size(),
            final(self).base() == old(self).base(),
            final(self).format() == old(self).format(),
            (r is Some) <==> old(self).pending().len() + 1 == old(self).spec_chunk_size(),
            match r {
                Some(c) => {
                    &&& c.file_name@ == file_name_of(
                        old(self).base(),
                        old(self).spec_next_sequence(),
                        CompressionFormat::Uncompressed,
                    )
                    &&& c.buffer@ == old(self).pending().push(byte)
                    &&& c.compression == old(self).format()
                    &&& final(self).spec_next_sequence() == old(self).spec_next_sequence() + 1
                    &&& final(self).pending() == Seq::<u8>::empty()
                },
                None => {
                    &&& final(self).spec_next_sequence() == old(self).spec_next_sequence()
                    &&& final(self).pending() == old(self).pending().push(byte)
                },
            },
    {
        match self.chunker.push(byte) {
            Some(chunk) => Some(Compressor::for_chunk(self.base.as_str(), chunk, self.compression)),
            None => None,
        }
    }

    /// The input has ended: the work for the last, shorter chunk, when bytes
    /// are left over.
    pub fn on_end(self) -> (r: Option<Compressor>)
        requires
            self.wf(),
        ensures
            (r is Some) <==> self.pending().len() > 0,
            r matches Some(c) ==> {
                &&& c.file_name@ == file_name_of(
                    self.base(),
                    self.spec_next_sequence(),
                    CompressionFormat::Uncompressed,
                )
                &&& c.buffer@ == self.pending()
                &&& c.compression == self.format()
            },
    {
        match self.chunker.finish() {
            Some(chunk) => Some(Compressor::for_chunk(self.base.as_str(), chunk, self.compression)),
            None => None,
        }
    }
}

/// Collects the outcomes of the tasks as they are awaited, keeping the first
/// failure. Every task is awaited; the run fails with the first failure seen.
pub struct FirstFailure<E> {
    first: Option<E>,
}

impl<E> FirstFailure<E> {
    /// The first failure recorded, if any.
    pub closed spec fn spec_first(&self) -> Option<E> {
        self.first
    }

    pub fn new() -> (r: FirstFailure<E>)
        ensures
            r.spec_first() == None::<E>,
    {
        FirstFailure { first: None }
    }

    /// Records the outcome of one task.
    pub fn record(&mut self, outcome: Result<(), E>)
        ensures
            final(self).spec_first() == match old(self).spec_first() {
                Some(e) => Some(e),
                None => match outcome {
                    Ok(_) => None,
                    Err(e) => Some(e),
                },
            },
    {
        if self.first.is_none() {
            match outcome {
                Ok(_) => {},
                Err(e) => {
                    self.first = Some(e);
                },
            }
        }
    }

    /// The result of the run: success when no task failed.
    pub fn finish(self) -> (r: Result<(), E>)
        ensures
            r == match self.spec_first() {
                Some(e) => Err::<(), E>(e),
                None => Ok(()),
            },
    {
        match self.first {
            Some(e) => Err(e),
            None => Ok(()),
        }
    }
}

} // verus!
