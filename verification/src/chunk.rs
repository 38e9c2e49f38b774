//! Chunk payloads: decompression on demand, and a cache of the one chunk
//! decompressed last.

use crate::catalog::{chunk_at, Chunk, ChunkView};
use crate::compression::{codec_named, decompress, decompressed, Codec};
use crate::errors::{Error, Fault};
use vstd::prelude::*;
use vstd::slice::slice_subrange;

verus! {

/// The decompressed payload of `chunk` in source `s`: exactly as many bytes
/// as the chunk declares. An unknown codec name gives
/// `UnsupportedCompression` with the name; a corrupt payload or another
/// length gives `DecompressionError`.
pub open spec fn chunk_content(s: Seq<u8>, chunk: ChunkView) -> Result<Seq<u8>, Fault> {
    match codec_named(chunk.compression) {
        None => Err(Fault::UnsupportedCompression(chunk.compression)),
        Some(codec) => match decompressed(codec, chunk.data.of(s), chunk.size as int) {
            Some(content) => Ok(content),
            None => Err(Fault::DecompressionError),
        },
    }
}

/// Decompresses the payload of `chunk`.
pub fn load_chunk(data: &[u8], chunk: &Chunk) -> (r: Result<Vec<u8>, Error>)
    requires
        chunk.data.within(data@.len() as int),
    ensures
        match r {
            Ok(content) => chunk_content(data@, chunk@) == Ok::<Seq<u8>, Fault>(content@)
                && content@.len() == chunk.size,
            Err(e) => chunk_content(data@, chunk@) == Err::<Seq<u8>, Fault>(e@),
        },
{
    let codec: Codec = match Codec::from_name(chunk.compression.as_str()) {
        Ok(codec) => codec,
        Err(e) => {
            return Err(e);
        },
    };
    let payload: &[u8] = slice_subrange(data, chunk.data.start, chunk.data.end);
    decompress(codec, payload, chunk.size as usize)
}

/// The payload of the chunk that was decompressed last, kept under the
/// offset of its record. It holds one chunk at most.
pub struct ChunkCache {
    key: Option<usize>,
    buffer: Vec<u8>,
}

impl ChunkCache {
    /// The offset of the chunk that is cached, if any.
    pub closed spec fn key(&self) -> Option<usize> {
        self.key
    }

    /// The cached bytes.
    pub closed spec fn bytes(&self) -> Seq<u8> {
        self.buffer@
    }

    /// What the cache holds is the payload of the chunk of `s` at the cached
    /// offset.
    pub open spec fn agrees(&self, s: Seq<u8>) -> bool {
        match self.key() {
            Some(offset) => match chunk_at(s, offset as int) {
                Some(chunk) => chunk_content(s, chunk) == Ok::<Seq<u8>, Fault>(self.bytes()),
                None => false,
            },
            None => true,
        }
    }

    /// An empty cache.
    pub fn new() -> (r: ChunkCache)
        ensures
            r.key() is None,
            forall|s: Seq<u8>| r.agrees(s),
    {
        ChunkCache { key: None, buffer: Vec::new() }
    }

    /// Whether the chunk at `offset` is the one cached.
    pub fn has(&self, offset: usize) -> (r: bool)
        ensures
            r == (self.key() == Some(offset)),
    {
        match self.key {
            Some(k) => k == offset,
            None => false,
        }
    }

    /// A cache that holds the decompressed payload of `chunk`.
    pub fn fill(data: &[u8], chunk: &Chunk) -> (r: Result<ChunkCache, Error>)
        requires
            chunk_at(data@, chunk.offset as int) == Some(chunk@),
            chunk.data.within(data@.len() as int),
        ensures
            match r {
                Ok(cache) => cache.key() == Some(chunk.offset) && cache.agrees(data@)
                    && chunk_content(data@, chunk@) == Ok::<Seq<u8>, Fault>(cache.bytes()),
                Err(e) => chunk_content(data@, chunk@) == Err::<Seq<u8>, Fault>(e@),
            },
    {
        match load_chunk(data, chunk) {
            Ok(content) => Ok(ChunkCache { key: Some(chunk.offset), buffer: content }),
            Err(e) => Err(e),
        }
    }

    /// Makes `chunk` the cached chunk. When it is cached already, nothing is
    /// decompressed; otherwise the chunk before it is dropped and `chunk` is
    /// decompressed. Either way the cache then holds the payload of `chunk`,
    /// whatever it held before. When decompression fails the cache is left
    /// empty.
    pub fn load(&mut self, data: &[u8], chunk: &Chunk) -> (r: Result<(), Error>)
        requires
            old(self).agrees(data@),
            chunk_at(data@, chunk.offset as int) == Some(chunk@),
            chunk.data.within(data@.len() as int),
        ensures
            final(self).agrees(data@),
            match r {
                Ok(_) => final(self).key() == Some(chunk.offset) && chunk_content(
                    data@,
                    chunk@,
                ) == Ok::<Seq<u8>, Fault>(final(self).bytes()),
                Err(e) => final(self).key() is None && chunk_content(data@, chunk@) == Err::<
                    Seq<u8>,
                    Fault,
                >(e@),
            },
            old(self).key() == Some(chunk.offset) ==> r is Ok && final(self).bytes()
                == old(self).bytes(),
    {
        if self.has(chunk.offset) {
            return Ok(());
        }
        match ChunkCache::fill(data, chunk) {
            Ok(cache) => {
                *self = cache;
                Ok(())
            },
            Err(e) => {
                *self = ChunkCache::new();
                Err(e)
            },
        }
    }

    /// The cached bytes.
    pub fn buffer(&self) -> (r: &[u8])
        ensures
            r@ == self.bytes(),
    {
        self.buffer.as_slice()
    }
}

} // verus!
