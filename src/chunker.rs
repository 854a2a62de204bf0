use vstd::arithmetic::div_mod::{
    lemma_div_minus_one, lemma_fundamental_div_mod_converse, lemma_mod_sub_multiples_vanish,
};
use vstd::prelude::*;

verus! {

/// A slice of the input, numbered by its position among the chunks.
pub struct Chunk {
    pub sequence_number: usize,
    pub bytes: Vec<u8>,
}

/// The chunks of `data` for chunk size `size`: full chunks of `size` bytes,
/// then one shorter chunk with the remainder when it is not empty.
pub open spec fn chunks_of(data: Seq<u8>, size: nat) -> Seq<Seq<u8>>
    decreases data.len(),
{
    if size == 0 || data.len() == 0 {
        Seq::empty()
    } else if data.len() <= size {
        seq![data]
    } else {
        seq![data.take(size as int)] + chunks_of(data.skip(size as int), size)
    }
}

/// The bytes of a sequence of chunks, one after the other.
pub open spec fn concat(chunks: Seq<Seq<u8>>) -> Seq<u8>
    decreases chunks.len(),
{
    if chunks.len() == 0 {
        Seq::empty()
    } else {
        chunks[0] + concat(chunks.drop_first())
    }
}

/// How many chunks an input of `len` bytes makes.
pub open spec fn chunk_count(len: nat, size: nat) -> nat
    recommends
        size > 0,
{
    if len == 0 {
        0
    } else if len % size != 0 {
        len / size + 1
    } else {
        len / size
    }
}

/// The input splits into `ceil(len / size)` chunks, and none when it is empty.
pub proof fn lemma_chunk_count(data: Seq<u8>, size: nat)
    requires
        size > 0,
    ensures
        chunks_of(data, size).len() == chunk_count(data.len(), size),
    decreases data.len(),
{
    let len = data.len() as int;
    let s = size as int;
    if len == 0 {
    } else if len <= s {
        if len == s {
            assert(len % s == 0 && len / s == 1) by (nonlinear_arith)
                requires len == s, s > 0;
        } else {
            assert(len % s != 0 && len / s == 0) by (nonlinear_arith)
                requires 0 < len < s;
        }
    } else {
        lemma_chunk_count(data.skip(s), size);
        lemma_div_minus_one(len, s);
        lemma_mod_sub_multiples_vanish(len, s);
        assert(data.skip(s).len() == -s + len);
    }
}

/// Putting the chunks back together gives the input, byte for byte.
pub proof fn lemma_chunks_concat(data: Seq<u8>, size: nat)
    requires
        size > 0,
    ensures
        concat(chunks_of(data, size)) == data,
    decreases data.len(),
{
    if data.len() == 0 {
    } else if data.len() <= size {
        assert(seq![data].drop_first() =~= Seq::<Seq<u8>>::empty());
        assert(concat(Seq::<Seq<u8>>::empty()) == Seq::<u8>::empty());
        assert(data + Seq::<u8>::empty() =~= data);
    } else {
        let rest = data.skip(size as int);
        lemma_chunks_concat(rest, size);
        let cs = chunks_of(data, size);
        assert(cs.drop_first() =~= chunks_of(rest, size));
        assert(data.take(size as int) + rest =~= data);
    }
}

/// Chunk `k` holds the bytes of `data` from `k * size` up to the next
/// multiple of `size`, or to the end for the last one.
pub proof fn lemma_chunk_at(data: Seq<u8>, size: nat, k: int)
    requires
        size > 0,
        0 <= k < chunks_of(data, size).len(),
    ensures
        k * size < data.len(),
        chunks_of(data, size)[k] == data.subrange(
            k * size,
            if (k + 1) * size <= data.len() { (k + 1) * size } else { data.len() as int },
        ),
    decreases data.len(),
{
    let s = size as int;
    if data.len() <= size {
        assert(k == 0);
        assert(data.subrange(0, data.len() as int) =~= data);
    } else if k == 0 {
        assert(data.take(s) =~= data.subrange(0, s));
    } else {
        let rest = data.skip(s);
        lemma_chunk_at(rest, size, k - 1);
        assert((k - 1) * s + s == k * s) by (nonlinear_arith);
        assert(k * s + s == (k + 1) * s) by (nonlinear_arith);
        let hi = if k * s <= rest.len() { k * s } else { rest.len() as int };
        assert(rest.subrange((k - 1) * s, hi) =~= data.subrange(k * s, hi + s));
    }
}

/// Cuts a stream into chunks as its bytes arrive. Every chunk but the last
/// holds exactly the chunk size; the last holds the remainder, if any.
pub struct Chunker {
    chunk_size: usize,
    buffer: Vec<u8>,
    next_sequence: usize,
    consumed: Ghost<Seq<u8>>,
}

impl Chunker {
    /// The bytes fed so far.
    pub closed spec fn consumed(&self) -> Seq<u8> {
        self.consumed@
    }

    /// The bytes fed since the last chunk was cut.
    pub closed spec fn pending(&self) -> Seq<u8> {
        self.buffer@
    }

    pub closed spec fn spec_chunk_size(&self) -> nat {
        self.chunk_size as nat
    }

    /// The sequence number that the next chunk will carry.
    pub closed spec fn spec_next_sequence(&self) -> nat {
        self.next_sequence as nat
    }

    pub closed spec fn wf(&self) -> bool {
        &&& self.chunk_size > 0
        &&& self.buffer@.len() < self.chunk_size
        &&& self.consumed@.len() == self.next_sequence * self.chunk_size + self.buffer@.len()
        &&& self.buffer@ == self.consumed@.skip(self.next_sequence * self.chunk_size)
    }

    pub fn new(chunk_size: usize) -> (r: Chunker)
        requires
            chunk_size > 0,
        ensures
            r.wf(),
            r.consumed() == Seq::<u8>::empty(),
            r.pending() == Seq::<u8>::empty(),
            r.spec_chunk_size() == chunk_size,
            r.spec_next_sequence() == 0,
    {
        let r = Chunker {
            chunk_size,
            buffer: Vec::new(),
            next_sequence: 0,
            consumed: Ghost(Seq::empty()),
        };
        assert(r.next_sequence * r.chunk_size == 0);
        assert(r.buffer@ =~= r.consumed@.skip(0));
        r
    }

    /// What has been fed is the full chunks handed out so far, then the
    /// pending bytes, which are fewer than a chunk.
    pub proof fn lemma_layout(&self)
        requires
            self.wf(),
        ensures
            self.spec_chunk_size() > 0,
            self.pending().len() < self.spec_chunk_size(),
            self.consumed().len() == self.spec_next_sequence() * self.spec_chunk_size()
                + self.pending().len(),
            self.pending() == self.consumed().skip(
                (self.spec_next_sequence() * self.spec_chunk_size()) as int,
            ),
    {
    }

    pub fn next_sequence(&self) -> (r: usize)
        ensures
            r == self.spec_next_sequence(),
    {
        self.next_sequence
    }

    /// Feeds one byte. When it completes a chunk, that chunk is handed out
    /// and the next one starts empty.
    pub fn push(&mut self, byte: u8) -> (r: Option<Chunk>)
        requires
            old(self).wf(),
            old(self).spec_next_sequence() < usize::MAX,
        ensures
            final(self).wf(),
            final(self).consumed() == old(self).consumed().push(byte),
            final(self).spec_chunk_size() == old(self).spec_chunk_size(),
            (r is Some) <==> old(self).pending().len() + 1 == old(self).spec_chunk_size(),
            match r {
                Some(chunk) => {
                    &&& chunk.sequence_number == old(self).spec_next_sequence()
                    &&& chunk.bytes@ == old(self).pending().push(byte)
                    &&& final(self).spec_next_sequence() == old(self).spec_next_sequence() + 1
                    &&& final(self).pending() == Seq::<u8>::empty()
                },
                None => {
                    &&& final(self).spec_next_sequence() == old(self).spec_next_sequence()
                    &&& final(self).pending() == old(self).pending().push(byte)
                },
            },
    {
        let ghost start = self.next_sequence * self.chunk_size;
        self.buffer.push(byte);
        self.consumed = Ghost(self.consumed@.push(byte));
        assert(self.buffer@ =~= self.consumed@.skip(start));
        if self.buffer.len() == self.chunk_size {
            let mut bytes = Vec::new();
            std::mem::swap(&mut bytes, &mut self.buffer);
            let sequence_number = self.next_sequence;
            self.next_sequence = self.next_sequence + 1;
            proof {
                let n = sequence_number as int;
                let c = self.chunk_size as int;
                assert((n + 1) * c == n * c + c) by (nonlinear_arith);
                assert(self.consumed@.skip((n + 1) * c) =~= Seq::<u8>::empty());
            }
            Some(Chunk { sequence_number, bytes })
        } else {
            None
        }
    }

    /// Ends the stream: the bytes left over form the last chunk, and none is
    /// made when nothing is left.
    pub fn finish(self) -> (r: Option<Chunk>)
        requires
            self.wf(),
        ensures
            (r is Some) <==> self.pending().len() > 0,
            r matches Some(chunk) ==> {
                &&& chunk.sequence_number == self.spec_next_sequence()
                &&& chunk.bytes@ == self.pending()
            },
    {
        if self.buffer.len() > 0 {
            Some(Chunk { sequence_number: self.next_sequence, bytes: self.buffer })
        } else {
            None
        }
    }
}

/// Cuts a whole buffer into its chunks, numbered from 0.
pub fn split_into_chunks(data: &[u8], chunk_size: usize) -> (r: Vec<Chunk>)
    requires
        chunk_size > 0,
    ensures
        r@.len() == chunks_of(data@, chunk_size as nat).len(),
        r@.len() == chunk_count(data@.len(), chunk_size as nat),
        forall|k: int|
            0 <= k < r@.len() ==> {
                &&& (#[trigger] r@[k]).sequence_number == k
                &&& r@[k].bytes@ == chunks_of(data@, chunk_size as nat)[k]
            },
{
    let ghost c = chunk_size as int;
    let mut chunker = Chunker::new(chunk_size);
    let mut out: Vec<Chunk> = Vec::new();
    let mut i: usize = 0;
    assert(data@.take(0) =~= Seq::<u8>::empty());
    while i < data.len()
        invariant
            0 <= i <= data@.len(),
            c == chunk_size,
            c > 0,
            chunker.wf(),
            chunker.spec_chunk_size() == chunk_size,
            chunker.consumed() == data@.take(i as int),
            out@.len() == chunker.spec_next_sequence(),
            forall|k: int|
                0 <= k < out@.len() ==> {
                    &&& (#[trigger] out@[k]).sequence_number == k
                    &&& 0 <= k * c
                    &&& (k + 1) * c <= i
                    &&& out@[k].bytes@ == data@.subrange(k * c, (k + 1) * c)
                },
        decreases data@.len() - i,
    {
        proof {
            chunker.lemma_layout();
            let n = chunker.spec_next_sequence() as int;
            assert(n <= n * c) by (nonlinear_arith)
                requires n >= 0, c >= 1;
        }
        let ghost before = chunker;
        let byte = data[i];
        let step = chunker.push(byte);
        assert(data@.take(i as int).push(byte) =~= data@.take(i + 1));
        match step {
            Some(chunk) => {
                proof {
                    before.lemma_layout();
                    chunker.lemma_layout();
                    let n = before.spec_next_sequence() as int;
                    assert(chunker.consumed().len() == i + 1);
                    assert((n + 1) * c == i + 1);
                    assert((n + 1) * c == n * c + c) by (nonlinear_arith);
                    assert(0 <= n * c) by (nonlinear_arith)
                        requires n >= 0, c > 0;
                    assert(chunk.bytes@ =~= data@.subrange(n * c, (n + 1) * c));
                }
                let ghost prior = out@;
                out.push(chunk);
                proof {
                    assert forall|k: int| 0 <= k < out@.len() implies (#[trigger] out@[k]).sequence_number
                        == k && 0 <= k * c && (k + 1) * c <= i + 1 && out@[k].bytes@ == data@.subrange(
                        k * c,
                        (k + 1) * c,
                    ) by {
                        if k < out@.len() - 1 {
                            assert(out@[k] == prior[k]);
                            assert(0 <= k * c && (k + 1) * c <= i);
                        }
                    }
                }
            },
            None => {
                assert forall|k: int| 0 <= k < out@.len() implies (#[trigger] out@[k]).sequence_number
                    == k && 0 <= k * c && (k + 1) * c <= i + 1 && out@[k].bytes@ == data@.subrange(
                    k * c,
                    (k + 1) * c,
                ) by {
                    assert(out@[k].sequence_number == k);
                }
            },
        }
        i = i + 1;
        assert forall|k: int| 0 <= k < out@.len() implies (#[trigger] out@[k]).sequence_number == k
            && 0 <= k * c && (k + 1) * c <= i && out@[k].bytes@ == data@.subrange(k * c, (k + 1) * c) by {
            assert(out@[k].sequence_number == k);
        }
    }
    proof {
        chunker.lemma_layout();
    }
    let ghost full = out@.len() as int;
    let last = chunker.finish();
    match last {
        Some(chunk) => {
            out.push(chunk);
        },
        None => {},
    }
    proof {
        let len = data@.len() as int;
        let size = chunk_size as nat;
        assert(data@.take(len) =~= data@);
        lemma_fundamental_div_mod_converse(len, c, full, len - full * c);
        lemma_chunk_count(data@, size);
        assert forall|k: int| 0 <= k < out@.len() implies (#[trigger] out@[k]).sequence_number == k
            && out@[k].bytes@ == chunks_of(data@, size)[k] by {
            lemma_chunk_at(data@, size, k);
            if k < full {
                assert((k + 1) * c <= full * c) by (nonlinear_arith)
                    requires k + 1 <= full, c > 0;
            } else {
                assert(full * c + c == (full + 1) * c) by (nonlinear_arith);
                assert(data@.skip(full * c) =~= data@.subrange(full * c, len));
            }
        }
    }
    out
}

} // verus!
