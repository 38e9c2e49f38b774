//! The handles on a recording: the lazy one, which decompresses a chunk when
//! a message of it is asked for, and the materialized one, which
//! decompresses every chunk when it is opened.

use crate::catalog::{CatalogView, ChunkEntry, Connection};
use crate::chunk::{chunk_content, load_chunk, ChunkCache};
use crate::errors::{Error, Fault};
use crate::index::{chunk_index, message_at, read_chunk_index, read_message_at, IndexEntry};
use crate::message::{next_message, yield_from, Found, Message, MessageView, Yield};
use crate::metadata::{catalog_of, BagMetadata};
use crate::query::{Query, QueryView};
use crate::record::Span;
use crate::scan::Origin;
use vstd::prelude::*;
use vstd::slice::slice_subrange;

verus! {

/// The messages of chunk `i` from position `pos` of its content on that meet
/// `q`. A chunk that `q` does not select is not decompressed and yields
/// nothing; one that does not decompress cuts the run short.
pub open spec fn chunk_yield(s: Seq<u8>, cat: CatalogView, q: QueryView, i: int, pos: int) -> Yield {
    if !q.selects(cat.chunks[i].info, cat.connections) {
        Yield::done()
    } else {
        match chunk_content(s, cat.chunks[i].chunk) {
            Err(f) => Yield::failed(f),
            Ok(content) => yield_from(content, pos, cat.connections, q),
        }
    }
}

/// The messages that meet `q` from position `pos` of chunk `i` on, through
/// the chunks in catalog order.
pub open spec fn remaining(s: Seq<u8>, cat: CatalogView, q: QueryView, i: int, pos: int) -> Yield
    decreases cat.chunks.len() - i,
{
    if i < 0 || i >= cat.chunks.len() {
        Yield::done()
    } else {
        chunk_yield(s, cat, q, i, pos).then_run(remaining(s, cat, q, i + 1, 0))
    }
}

/// The messages of recording `s` that meet `q`, and the fault that ends them
/// if there is one.
pub open spec fn messages(s: Seq<u8>, cat: CatalogView, q: QueryView) -> Yield {
    remaining(s, cat, q, 0, 0)
}

/// A message before a run that goes on behind it is a message before the
/// whole.
pub proof fn lemma_after_then(y: Yield, m: Message, next: Yield)
    ensures
        y.after(m).then_run(next) == y.then_run(next).after(m),
{
    assert((seq![m] + y.msgs) + next.msgs =~= seq![m] + (y.msgs + next.msgs));
}

/// A place in the message sequence of one query. A cursor is made by
/// `read_messages` and moved by `next_message`.
pub struct MessageCursor<'q> {
    query: &'q Query,
    chunk: usize,
    pos: usize,
}

impl<'q> MessageCursor<'q> {
    /// The query whose messages the cursor walks.
    pub closed spec fn query(&self) -> QueryView {
        self.query@
    }

    /// The chunk the cursor is in.
    pub closed spec fn chunk(&self) -> int {
        self.chunk as int
    }

    /// The position in that chunk's content.
    pub closed spec fn pos(&self) -> int {
        self.pos as int
    }

    /// The messages still to come, in recording `s` with catalog `cat`.
    pub open spec fn rest(&self, s: Seq<u8>, cat: CatalogView) -> Yield {
        remaining(s, cat, self.query(), self.chunk(), self.pos())
    }
}

/// A recording that is read lazily: a chunk is decompressed when a message
/// of it is asked for, and only the chunk decompressed last is kept.
pub struct Bag {
    bytes: Vec<u8>,
    metadata: BagMetadata,
    cache: ChunkCache,
}

impl Bag {
    #[verifier::type_invariant]
    spec fn inv(self) -> bool {
        &&& self.metadata.describes(self.bytes@)
        &&& self.cache.agrees(self.bytes@)
    }

    /// The bytes of the recording.
    pub closed spec fn source(&self) -> Seq<u8> {
        self.bytes@
    }

    /// The catalog of the recording.
    pub closed spec fn catalog(&self) -> CatalogView {
        self.metadata.catalog@
    }

    /// How the catalog was built.
    pub closed spec fn origin(&self) -> Origin {
        self.metadata.origin
    }

    /// The file that the bytes were read from, if the handle was given one.
    pub closed spec fn path(&self) -> Option<Seq<char>> {
        self.metadata.path()
    }

    /// Opens a recording held in memory. Fails exactly when the recording
    /// has no catalog: `InvalidFormat` for another version line, and the
    /// fault of the index or of the scan otherwise.
    pub fn from_bytes(bytes: Vec<u8>) -> (r: Result<Bag, Error>)
        ensures
            match r {
                Ok(bag) => bag.source() == bytes@ && bag.path() is None && catalog_of(bytes@)
                    == Ok::<(CatalogView, Origin), Fault>((bag.catalog(), bag.origin())),
                Err(e) => catalog_of(bytes@) == Err::<(CatalogView, Origin), Fault>(e@),
            },
    {
        match BagMetadata::from_bytes(bytes.as_slice()) {
            Ok(metadata) => Ok(Bag { bytes, metadata, cache: ChunkCache::new() }),
            Err(e) => Err(e),
        }
    }

    /// The summary of the recording.
    pub fn metadata(&self) -> (r: &BagMetadata)
        ensures
            r.describes(self.source()),
            r.catalog() == self.catalog(),
            r.origin() == self.origin(),
            r.path() == self.path(),
    {
        proof {
            use_type_invariant(self);
        }
        &self.metadata
    }

    /// The handle, with `path` as the file that its bytes were read from, in
    /// place of the file it had before, if it had one. The recording and its
    /// catalog stay what they are.
    pub fn with_file_path(self, path: String) -> (r: Bag)
        ensures
            r.path() == Some(path@),
            r.source() == self.source(),
            r.catalog() == self.catalog(),
            r.origin() == self.origin(),
    {
        proof {
            use_type_invariant(&self);
        }
        Bag {
            bytes: self.bytes,
            metadata: self.metadata.with_file_path(path),
            cache: self.cache,
        }
    }

    /// A cursor before the first message that meets `query`.
    pub fn read_messages<'q>(&self, query: &'q Query) -> (r: MessageCursor<'q>)
        ensures
            r.query() == query@,
            r.rest(self.source(), self.catalog()) == messages(
                self.source(),
                self.catalog(),
                query@,
            ),
    {
        MessageCursor { query, chunk: 0, pos: 0 }
    }

    /// Makes chunk `i` the cached chunk: decompresses it, unless it is the
    /// one cached.
    fn load(&mut self, i: usize) -> (r: Result<(), Error>)
        requires
            i < old(self).metadata.catalog.chunks@.len(),
        ensures
            final(self).bytes == old(self).bytes,
            final(self).metadata == old(self).metadata,
            match r {
                Ok(_) => chunk_content(
                    old(self).source(),
                    old(self).catalog().chunks[i as int].chunk,
                ) == Ok::<Seq<u8>, Fault>(final(self).cache.bytes()),
                Err(e) => chunk_content(
                    old(self).source(),
                    old(self).catalog().chunks[i as int].chunk,
                ) == Err::<Seq<u8>, Fault>(e@),
            },
    {
        proof {
            use_type_invariant(&*self);
        }
        let entry: &ChunkEntry = &self.metadata.catalog.chunks[i];
        assert(self.metadata.catalog@.chunks[i as int] == entry@);
        if !self.cache.has(entry.chunk.offset) {
            match ChunkCache::fill(self.bytes.as_slice(), &entry.chunk) {
                Ok(cache) => {
                    self.cache = cache;
                },
                Err(e) => {
                    return Err(e);
                },
            }
        }
        Ok(())
    }

    /// The index of chunk `i`: where the index records behind the chunk say
    /// that its messages lie. `None` when there is no chunk `i` or an index
    /// record is malformed.
    pub fn chunk_index(&self, i: usize) -> (r: Option<Vec<IndexEntry>>)
        ensures
            match r {
                Some(entries) => i < self.catalog().chunks.len() && chunk_index(
                    self.source(),
                    self.catalog().chunks[i as int].chunk,
                ) == Some(entries@),
                None => i >= self.catalog().chunks.len() || chunk_index(
                    self.source(),
                    self.catalog().chunks[i as int].chunk,
                ) is None,
            },
    {
        if i >= self.metadata.catalog.chunks.len() {
            return None;
        }
        let entry: &ChunkEntry = &self.metadata.catalog.chunks[i];
        assert(self.metadata.catalog@.chunks[i as int] == entry@);
        read_chunk_index(self.bytes.as_slice(), &entry.chunk)
    }

    /// The message whose record starts at `offset` of the content of chunk
    /// `i`, as an index entry gives it. `None` when there is no chunk `i`, or
    /// no message record of a known connection at `offset`; a fault when the
    /// chunk does not decompress.
    pub fn message_at<'a>(&'a mut self, i: usize, offset: u32) -> (r: Result<
        Option<MessageView<'a>>,
        Error,
    >)
        ensures
            final(self).source() == old(self).source(),
            final(self).catalog() == old(self).catalog(),
            final(self).origin() == old(self).origin(),
            final(self).path() == old(self).path(),
            i >= old(self).catalog().chunks.len() ==> r == Ok::<Option<MessageView<'a>>, Error>(
                None,
            ),
            i < old(self).catalog().chunks.len() ==> match chunk_content(
                old(self).source(),
                old(self).catalog().chunks[i as int].chunk,
            ) {
                Ok(content) => match r {
                    Ok(Some(m)) => message_at(
                        content,
                        offset as int,
                        old(self).catalog().connections,
                    ) == Some(m@),
                    Ok(None) => message_at(content, offset as int, old(self).catalog().connections)
                        is None,
                    Err(_) => false,
                },
                Err(f) => match r {
                    Err(e) => e@ == f,
                    Ok(_) => false,
                },
            },
    {
        if i >= self.metadata.catalog.chunks.len() {
            return Ok(None);
        }
        match self.load(i) {
            Ok(_) => {},
            Err(e) => {
                return Err(e);
            },
        }
        Ok(read_message_at(self.cache.buffer(), offset as usize, &self.metadata.catalog.connections))
    }

    /// Looks for the next message that meets the query in the chunk that
    /// `cursor` is in, loading the chunk unless it is the one cached, and says
    /// where in the cached content the message lies.
    fn seek_in_chunk(&mut self, cursor: &mut MessageCursor<'_>) -> (r: Result<
        Option<Found>,
        Error,
    >)
        requires
            old(cursor).chunk < old(self).metadata.catalog.chunks@.len(),
        ensures
            final(self).bytes == old(self).bytes,
            final(self).metadata == old(self).metadata,
            final(cursor).query == old(cursor).query,
            final(cursor).chunk == old(cursor).chunk,
            match r {
                Ok(Some(f)) => {
                    &&& f.index < final(self).metadata.catalog.connections@.len()
                    &&& f.data.within(final(self).cache.bytes().len() as int)
                    &&& chunk_yield(
                        old(self).source(),
                        old(self).catalog(),
                        old(cursor).query(),
                        old(cursor).chunk(),
                        old(cursor).pos(),
                    ) == chunk_yield(
                        old(self).source(),
                        old(self).catalog(),
                        old(cursor).query(),
                        old(cursor).chunk(),
                        final(cursor).pos(),
                    ).after(f.message(final(self).cache.bytes(), old(self).catalog().connections))
                },
                Ok(None) => final(cursor).pos == old(cursor).pos && chunk_yield(
                    old(self).source(),
                    old(self).catalog(),
                    old(cursor).query(),
                    old(cursor).chunk(),
                    old(cursor).pos(),
                ) == Yield::done(),
                Err(e) => final(cursor).pos == old(cursor).pos && chunk_yield(
                    old(self).source(),
                    old(self).catalog(),
                    old(cursor).query(),
                    old(cursor).chunk(),
                    old(cursor).pos(),
                ) == Yield::failed(e@),
            },
    {
        proof {
            use_type_invariant(&*self);
        }
        let entry: &ChunkEntry = &self.metadata.catalog.chunks[cursor.chunk];
        assert(self.metadata.catalog@.chunks[cursor.chunk as int] == entry@);
        if !cursor.query.selects(&entry.info, &self.metadata.catalog.connections) {
            return Ok(None);
        }
        match self.load(cursor.chunk) {
            Ok(_) => {},
            Err(e) => {
                return Err(e);
            },
        }
        match next_message(
            self.cache.buffer(),
            cursor.pos,
            &self.metadata.catalog.connections,
            cursor.query,
        ) {
            Err(e) => Err(e),
            Ok(Some(f)) => {
                cursor.pos = f.next;
                Ok(Some(f))
            },
            Ok(None) => Ok(None),
        }
    }

    /// Moves `cursor` to the next message that meets its query, through the
    /// chunks in catalog order.
    fn seek(&mut self, cursor: &mut MessageCursor<'_>) -> (r: Result<Option<Found>, Error>)
        ensures
            final(self).bytes == old(self).bytes,
            final(self).metadata == old(self).metadata,
            final(cursor).query == old(cursor).query,
            match r {
                Ok(Some(f)) => {
                    &&& f.index < final(self).metadata.catalog.connections@.len()
                    &&& f.data.within(final(self).cache.bytes().len() as int)
                    &&& old(cursor).rest(old(self).source(), old(self).catalog()) == final(cursor).rest(
                        old(self).source(),
                        old(self).catalog(),
                    ).after(
                        f.message(final(self).cache.bytes(), old(self).catalog().connections),
                    )
                },
                Ok(None) => old(cursor).rest(old(self).source(), old(self).catalog())
                    == Yield::done() && final(cursor).rest(
                    old(self).source(),
                    old(self).catalog(),
                ) == Yield::done(),
                Err(e) => old(cursor).rest(old(self).source(), old(self).catalog())
                    == Yield::failed(e@) && final(cursor).rest(
                    old(self).source(),
                    old(self).catalog(),
                ) == Yield::failed(e@),
            },
    {
        loop
            invariant
                self.bytes == old(self).bytes,
                self.metadata == old(self).metadata,
                cursor.query == old(cursor).query,
                old(cursor).rest(old(self).source(), old(self).catalog()) == cursor.rest(
                    old(self).source(),
                    old(self).catalog(),
                ),
            decreases self.metadata.catalog.chunks@.len() - cursor.chunk,
        {
            if cursor.chunk >= self.metadata.catalog.chunks.len() {
                return Ok(None);
            }
            let ghost here = *cursor;
            match self.seek_in_chunk(cursor) {
                Ok(None) => {
                    cursor.chunk = cursor.chunk + 1;
                    cursor.pos = 0;
                },
                Ok(Some(f)) => {
                    proof {
                        lemma_after_then(
                            chunk_yield(
                                self.source(),
                                self.catalog(),
                                cursor.query(),
                                cursor.chunk(),
                                cursor.pos(),
                            ),
                            f.message(self.cache.bytes(), self.catalog().connections),
                            remaining(
                                self.source(),
                                self.catalog(),
                                cursor.query(),
                                cursor.chunk() + 1,
                                0,
                            ),
                        );
                    }
                    return Ok(Some(f));
                },
                Err(e) => {
                    return Err(e);
                },
            }
        }
    }

    /// The next message that meets the cursor's query, or `None` when there
    /// is no more. The message is borrowed from the handle: it has to be let
    /// go before the next one is asked for. A fault comes where the run of
    /// messages is cut short, after every message before it has been given,
    /// and leaves the cursor where it is.
    pub fn next_message<'a>(&'a mut self, cursor: &mut MessageCursor<'_>) -> (r: Result<
        Option<MessageView<'a>>,
        Error,
    >)
        ensures
            final(self).source() == old(self).source(),
            final(self).catalog() == old(self).catalog(),
            final(self).origin() == old(self).origin(),
            final(self).path() == old(self).path(),
            final(cursor).query() == old(cursor).query(),
            match r {
                Ok(Some(m)) => old(cursor).rest(old(self).source(), old(self).catalog())
                    == final(cursor).rest(old(self).source(), old(self).catalog()).after(m@),
                Ok(None) => old(cursor).rest(old(self).source(), old(self).catalog())
                    == Yield::done() && final(cursor).rest(
                    old(self).source(),
                    old(self).catalog(),
                ) == Yield::done(),
                Err(e) => old(cursor).rest(old(self).source(), old(self).catalog())
                    == Yield::failed(e@) && final(cursor).rest(
                    old(self).source(),
                    old(self).catalog(),
                ) == Yield::failed(e@),
            },
    {
        match self.seek(cursor) {
            Err(e) => Err(e),
            Ok(None) => Ok(None),
            Ok(Some(f)) => {
                let connection: &Connection = &self.metadata.catalog.connections[f.index];
                Ok(
                    Some(
                        MessageView {
                            conn: f.conn,
                            topic: connection.topic.as_str(),
                            time: f.time,
                            data: slice_subrange(self.cache.buffer(), f.data.start, f.data.end),
                        },
                    ),
                )
            },
        }
    }
}

/// A recording that is decompressed when it is opened: the payloads of all
/// chunks lie one after the other in one buffer, from which every message is
/// borrowed.
pub struct DecompressedBag {
    metadata: BagMetadata,
    buffer: Vec<u8>,
    slots: Vec<Span>,
    source: Ghost<Seq<u8>>,
}

/// Whether `buffer` holds the payload of chunk `i` in the place `slots[i]`.
pub open spec fn holds_chunk(
    s: Seq<u8>,
    cat: CatalogView,
    buffer: Seq<u8>,
    slots: Seq<Span>,
    i: int,
) -> bool {
    &&& slots[i].within(buffer.len() as int)
    &&& chunk_content(s, cat.chunks[i].chunk) == Ok::<Seq<u8>, Fault>(slots[i].of(buffer))
}

/// Whether `buffer` holds the payloads of the first `n` chunks.
pub open spec fn holds_chunks(
    s: Seq<u8>,
    cat: CatalogView,
    buffer: Seq<u8>,
    slots: Seq<Span>,
    n: int,
) -> bool {
    &&& slots.len() == n
    &&& n <= cat.chunks.len()
    &&& forall|i: int| 0 <= i < n ==> #[trigger] holds_chunk(s, cat, buffer, slots, i)
}

/// The fault of the first chunk before chunk `n` that does not decompress.
pub open spec fn first_fault(s: Seq<u8>, cat: CatalogView, n: int) -> Option<Fault>
    decreases n,
{
    if n <= 0 {
        None
    } else {
        match first_fault(s, cat, n - 1) {
            Some(f) => Some(f),
            None => match chunk_content(s, cat.chunks[n - 1].chunk) {
                Err(f) => Some(f),
                Ok(_) => None,
            },
        }
    }
}

impl DecompressedBag {
    #[verifier::type_invariant]
    spec fn inv(self) -> bool {
        &&& self.metadata.describes(self.source@)
        &&& holds_chunks(
            self.source@,
            self.metadata.catalog@,
            self.buffer@,
            self.slots@,
            self.metadata.catalog@.chunks.len() as int,
        )
    }

    /// The bytes of the recording as it was opened.
    pub closed spec fn source(&self) -> Seq<u8> {
        self.source@
    }

    /// The catalog of the recording.
    pub closed spec fn catalog(&self) -> CatalogView {
        self.metadata.catalog@
    }

    /// How the catalog was built.
    pub closed spec fn origin(&self) -> Origin {
        self.metadata.origin
    }

    /// The file that the bytes were read from, if the handle was given one.
    pub closed spec fn path(&self) -> Option<Seq<char>> {
        self.metadata.path()
    }

    /// Opens a recording held in memory and decompresses all of its chunks.
    /// Fails when the recording has no catalog, as the lazy handle does, and
    /// with the fault of the first chunk that does not decompress.
    pub fn from_bytes(data: &[u8]) -> (r: Result<DecompressedBag, Error>)
        ensures
            match r {
                Ok(bag) => bag.source() == data@ && bag.path() is None && catalog_of(data@) == Ok::<
                    (CatalogView, Origin),
                    Fault,
                >((bag.catalog(), bag.origin())) && first_fault(
                    data@,
                    bag.catalog(),
                    bag.catalog().chunks.len() as int,
                ) is None,
                Err(e) => match catalog_of(data@) {
                    Err(f) => f == e@,
                    Ok((cat, _)) => first_fault(data@, cat, cat.chunks.len() as int) == Some(e@),
                },
            },
    {
        let metadata: BagMetadata = match BagMetadata::from_bytes(data) {
            Ok(metadata) => metadata,
            Err(e) => {
                return Err(e);
            },
        };
        let mut buffer: Vec<u8> = Vec::new();
        let mut slots: Vec<Span> = Vec::new();
        let mut i: usize = 0;
        while i < metadata.catalog.chunks.len()
            invariant
                metadata.describes(data@),
                0 <= i <= metadata.catalog.chunks@.len(),
                holds_chunks(data@, metadata.catalog@, buffer@, slots@, i as int),
                first_fault(data@, metadata.catalog@, i as int) is None,
            decreases metadata.catalog.chunks@.len() - i,
        {
            let entry: &ChunkEntry = &metadata.catalog.chunks[i];
            assert(metadata.catalog@.chunks[i as int] == entry@);
            let mut content: Vec<u8> = match load_chunk(data, &entry.chunk) {
                Ok(content) => content,
                Err(e) => {
                    proof {
                        lemma_first_fault_stays(
                            data@,
                            metadata.catalog@,
                            i as int + 1,
                            metadata.catalog@.chunks.len() as int,
                        );
                    }
                    return Err(e);
                },
            };
            let ghost before = buffer@;
            let ghost before_slots = slots@;
            let ghost content_bytes = content@;
            let start: usize = buffer.len();
            buffer.append(&mut content);
            slots.push(Span { start, end: buffer.len() });
            assert forall|k: int| 0 <= k < i + 1 implies #[trigger] holds_chunk(
                data@,
                metadata.catalog@,
                buffer@,
                slots@,
                k,
            ) by {
                if k < i {
                    assert(holds_chunk(data@, metadata.catalog@, before, before_slots, k));
                    assert(slots@[k].of(buffer@) =~= slots@[k].of(before));
                } else {
                    assert(slots@[k].of(buffer@) =~= content_bytes);
                }
            }
            i += 1;
        }
        Ok(DecompressedBag { metadata, buffer, slots, source: Ghost(data@) })
    }

    /// The summary of the recording.
    pub fn metadata(&self) -> (r: &BagMetadata)
        ensures
            r.describes(self.source()),
            r.catalog() == self.catalog(),
            r.origin() == self.origin(),
            r.path() == self.path(),
    {
        proof {
            use_type_invariant(self);
        }
        &self.metadata
    }

    /// A cursor before the first message that meets `query`.
    pub fn read_messages<'q>(&self, query: &'q Query) -> (r: MessageCursor<'q>)
        ensures
            r.query() == query@,
            r.rest(self.source(), self.catalog()) == messages(
                self.source(),
                self.catalog(),
                query@,
            ),
    {
        MessageCursor { query, chunk: 0, pos: 0 }
    }

    /// The handle, with `path` as the file that its bytes were read from, in
    /// place of the file it had before, if it had one. The recording and its
    /// catalog stay what they are.
    pub fn with_file_path(self, path: String) -> (r: DecompressedBag)
        ensures
            r.path() == Some(path@),
            r.source() == self.source(),
            r.catalog() == self.catalog(),
            r.origin() == self.origin(),
    {
        proof {
            use_type_invariant(&self);
        }
        DecompressedBag {
            metadata: self.metadata.with_file_path(path),
            buffer: self.buffer,
            slots: self.slots,
            source: self.source,
        }
    }

    /// The decompressed payload of chunk `i`.
    fn content(&self, i: usize) -> (r: &[u8])
        requires
            i < self.metadata.catalog.chunks@.len(),
        ensures
            chunk_content(self.source@, self.metadata.catalog@.chunks[i as int].chunk) == Ok::<
                Seq<u8>,
                Fault,
            >(r@),
    {
        proof {
            use_type_invariant(self);
            assert(holds_chunk(
                self.source@,
                self.metadata.catalog@,
                self.buffer@,
                self.slots@,
                i as int,
            ));
        }
        let slot: Span = self.slots[i];
        slice_subrange(self.buffer.as_slice(), slot.start, slot.end)
    }

    /// The message whose record starts at `offset` of the content of chunk
    /// `i`, as an index entry gives it. `None` when there is no chunk `i`, or
    /// no message record of a known connection at `offset`.
    pub fn message_at<'a>(&'a self, i: usize, offset: u32) -> (r: Option<MessageView<'a>>)
        ensures
            i >= self.catalog().chunks.len() ==> r is None,
            i < self.catalog().chunks.len() ==> match chunk_content(
                self.source(),
                self.catalog().chunks[i as int].chunk,
            ) {
                Ok(content) => match r {
                    Some(m) => message_at(content, offset as int, self.catalog().connections)
                        == Some(m@),
                    None => message_at(content, offset as int, self.catalog().connections)
                        is None,
                },
                Err(_) => false,
            },
    {
        if i >= self.metadata.catalog.chunks.len() {
            return None;
        }
        read_message_at(self.content(i), offset as usize, &self.metadata.catalog.connections)
    }

    /// The next message that meets the cursor's query, or `None` when there
    /// is no more. A fault comes where the run of messages is cut short,
    /// after every message before it has been given.
    pub fn next_message<'a>(&'a self, cursor: &mut MessageCursor<'_>) -> (r: Result<
        Option<MessageView<'a>>,
        Error,
    >)
        ensures
            final(cursor).query() == old(cursor).query(),
            match r {
                Ok(Some(m)) => old(cursor).rest(self.source(), self.catalog())
                    == final(cursor).rest(self.source(), self.catalog()).after(m@),
                Ok(None) => old(cursor).rest(self.source(), self.catalog()) == Yield::done()
                    && final(cursor).rest(self.source(), self.catalog()) == Yield::done(),
                Err(e) => old(cursor).rest(self.source(), self.catalog()) == Yield::failed(e@)
                    && final(cursor).rest(self.source(), self.catalog()) == Yield::failed(e@),
            },
    {
        loop
            invariant
                cursor.query == old(cursor).query,
                old(cursor).rest(self.source(), self.catalog()) == cursor.rest(
                    self.source(),
                    self.catalog(),
                ),
            decreases self.metadata.catalog.chunks@.len() - cursor.chunk,
        {
            if cursor.chunk >= self.metadata.catalog.chunks.len() {
                return Ok(None);
            }
            let entry: &ChunkEntry = &self.metadata.catalog.chunks[cursor.chunk];
            assert(self.metadata.catalog@.chunks[cursor.chunk as int] == entry@);
            if cursor.query.selects(&entry.info, &self.metadata.catalog.connections) {
                let content: &[u8] = self.content(cursor.chunk);
                match next_message(
                    content,
                    cursor.pos,
                    &self.metadata.catalog.connections,
                    cursor.query,
                ) {
                    Err(e) => {
                        return Err(e);
                    },
                    Ok(Some(f)) => {
                        proof {
                            lemma_after_then(
                                chunk_yield(
                                    self.source(),
                                    self.catalog(),
                                    cursor.query(),
                                    cursor.chunk(),
                                    f.next as int,
                                ),
                                f.message(content@, self.catalog().connections),
                                remaining(
                                    self.source(),
                                    self.catalog(),
                                    cursor.query(),
                                    cursor.chunk() + 1,
                                    0,
                                ),
                            );
                        }
                        cursor.pos = f.next;
                        let connection: &Connection = &self.metadata.catalog.connections[f.index];
                        return Ok(
                            Some(
                                MessageView {
                                    conn: f.conn,
                                    topic: connection.topic.as_str(),
                                    time: f.time,
                                    data: slice_subrange(content, f.data.start, f.data.end),
                                },
                            ),
                        );
                    },
                    Ok(None) => {},
                }
            }
            cursor.chunk = cursor.chunk + 1;
            cursor.pos = 0;
        }
    }
}

/// Once a chunk has failed to decompress, the first fault stays what it is.
pub proof fn lemma_first_fault_stays(s: Seq<u8>, cat: CatalogView, n: int, m: int)
    requires
        0 <= n <= m,
        first_fault(s, cat, n) is Some,
    ensures
        first_fault(s, cat, m) == first_fault(s, cat, n),
    decreases m - n,
{
    if n < m {
        lemma_first_fault_stays(s, cat, n, m - 1);
    }
}

} // verus!
