//! The connection and chunk catalog of a recording, and the records it is
//! read from.

use crate::bytes::{read_u32, span_is, to_index, u32_at};
use crate::errors::{Error, Fault};
use crate::record::{
    field, fields_ok, find_field, header_ok, key, parse_record, record_at, Parsed, Record, Span,
};
use crate::text::{read_text, text_of};
use crate::time::Time;
use vstd::prelude::*;

verus! {

/// A named, typed channel of a recording.
#[derive(Debug, Clone, PartialEq, Eq)]
pub struct Connection {
    /// The number by which message records refer to the connection.
    pub id: u32,
    /// The name of the channel.
    pub topic: String,
    /// The name of the message type.
    pub data_type: String,
    /// The digest of the message definition.
    pub md5sum: String,
}

/// The mathematical counterpart of [`Connection`].
pub struct ConnectionView {
    pub id: u32,
    pub topic: Seq<char>,
    pub data_type: Seq<char>,
    pub md5sum: Seq<char>,
}

impl View for Connection {
    type V = ConnectionView;

    open spec fn view(&self) -> ConnectionView {
        ConnectionView {
            id: self.id,
            topic: self.topic@,
            data_type: self.data_type@,
            md5sum: self.md5sum@,
        }
    }
}

/// The views of a list of connections.
pub open spec fn connection_views(conns: Seq<Connection>) -> Seq<ConnectionView> {
    Seq::new(conns.len(), |i: int| conns[i]@)
}

/// The position of the first connection numbered `id`, searching from
/// `from`.
pub open spec fn position(conns: Seq<ConnectionView>, id: u32, from: int) -> Option<int>
    decreases conns.len() - from,
{
    if from < 0 || from >= conns.len() {
        None
    } else if conns[from].id == id {
        Some(from)
    } else {
        position(conns, id, from + 1)
    }
}

/// The topic of the connection numbered `id`.
pub open spec fn topic_of(conns: Seq<ConnectionView>, id: u32) -> Option<Seq<char>> {
    match position(conns, id, 0) {
        Some(i) => Some(conns[i].topic),
        None => None,
    }
}

/// No two connections share a number.
pub open spec fn distinct_ids(conns: Seq<ConnectionView>) -> bool {
    forall|i: int, j: int|
        0 <= i < conns.len() && 0 <= j < conns.len() && conns[i].id == conns[j].id ==> i == j
}

/// `conns` with `c` added, unless its number is already taken.
pub open spec fn with_connection(conns: Seq<ConnectionView>, c: ConnectionView) -> Seq<
    ConnectionView,
> {
    if position(conns, c.id, 0) is Some {
        conns
    } else {
        conns.push(c)
    }
}

/// The connection that a connection record describes: numbered `conn`, on
/// the topic at `topic`, with the type and digest that the fields of `data`
/// give. `None` when `data` is not a header, a field is missing, or a text is
/// not UTF-8.
pub open spec fn connection_at(s: Seq<u8>, conn: u32, topic: Span, data: Span) -> Option<
    ConnectionView,
> {
    if !fields_ok(s, data.start as int, data.end as int) {
        None
    } else {
        match (
            text_of(topic.of(s)),
            field(s, data.start as int, data.end as int, key("type")),
            field(s, data.start as int, data.end as int, key("md5sum")),
        ) {
            (Some(topic), Some(data_type), Some(md5sum)) => match (
                text_of(data_type.of(s)),
                text_of(md5sum.of(s)),
            ) {
                (Some(data_type), Some(md5sum)) => Some(
                    ConnectionView { id: conn, topic, data_type, md5sum },
                ),
                _ => None,
            },
            _ => None,
        }
    }
}

/// A position search finds a connection with the number sought, and none
/// before it has that number.
pub proof fn lemma_position(conns: Seq<ConnectionView>, id: u32, from: int)
    requires
        0 <= from,
    ensures
        match position(conns, id, from) {
            Some(i) => from <= i < conns.len() && conns[i].id == id && forall|k: int|
                from <= k < i ==> conns[k].id != id,
            None => forall|k: int| from <= k < conns.len() ==> conns[k].id != id,
        },
    decreases conns.len() - from,
{
    if from < conns.len() && conns[from].id != id {
        lemma_position(conns, id, from + 1);
    }
}

/// Adding a connection keeps the numbers distinct.
pub proof fn lemma_with_connection_distinct(conns: Seq<ConnectionView>, c: ConnectionView)
    requires
        distinct_ids(conns),
    ensures
        distinct_ids(with_connection(conns, c)),
{
    lemma_position(conns, c.id, 0);
}

/// Finds the first connection numbered `id`.
pub fn find_connection(conns: &Vec<Connection>, id: u32) -> (r: Option<usize>)
    ensures
        match r {
            Some(i) => position(connection_views(conns@), id, 0) == Some(i as int) && i
                < conns@.len() && conns@[i as int].id == id,
            None => position(connection_views(conns@), id, 0) is None,
        },
{
    let mut i: usize = 0;
    while i < conns.len()
        invariant
            0 <= i <= conns@.len(),
            position(connection_views(conns@), id, 0) == position(
                connection_views(conns@),
                id,
                i as int,
            ),
        decreases conns@.len() - i,
    {
        if conns[i].id == id {
            return Some(i);
        }
        i += 1;
    }
    None
}

/// Adds `c` to `conns` unless a connection with its number is there.
pub fn add_connection(conns: &mut Vec<Connection>, c: Connection)
    ensures
        connection_views(final(conns)@) == with_connection(connection_views(old(conns)@), c@),
{
    match find_connection(conns, c.id) {
        Some(_) => {},
        None => {
            conns.push(c);
            assert(connection_views(conns@) =~= connection_views(old(conns)@).push(c@));
        },
    }
}

/// Reads the connection that a connection record describes.
pub fn read_connection(data: &[u8], conn: u32, topic: Span, span: Span) -> (r: Option<
    Connection,
>)
    requires
        topic.within(data@.len() as int),
        span.within(data@.len() as int),
    ensures
        match r {
            Some(c) => connection_at(data@, conn, topic, span) == Some(c@),
            None => connection_at(data@, conn, topic, span) is None,
        },
{
    if !header_ok(data, span) {
        return None;
    }
    let topic_text: String = match read_text(data, topic.start, topic.end) {
        Some(t) => t,
        None => {
            return None;
        },
    };
    let type_span: Span = match find_field(data, span, "type".as_bytes()) {
        Some(v) => v,
        None => {
            return None;
        },
    };
    let md5_span: Span = match find_field(data, span, "md5sum".as_bytes()) {
        Some(v) => v,
        None => {
            return None;
        },
    };
    let data_type: String = match read_text(data, type_span.start, type_span.end) {
        Some(t) => t,
        None => {
            return None;
        },
    };
    let md5sum: String = match read_text(data, md5_span.start, md5_span.end) {
        Some(t) => t,
        None => {
            return None;
        },
    };
    Some(Connection { id: conn, topic: topic_text, data_type, md5sum })
}

/// The `n` pairs of connection number and message count stored from `start`,
/// eight bytes each.
pub open spec fn counts_at(s: Seq<u8>, start: int, n: int) -> Seq<(u32, u32)> {
    Seq::new(
        n as nat,
        |i: int| (u32_at(s, start + 8 * i) as u32, u32_at(s, start + 8 * i + 4) as u32),
    )
}

/// Reads the pairs of connection number and message count that fill `span`.
pub fn read_counts(data: &[u8], span: Span, n: u32) -> (r: Vec<(u32, u32)>)
    requires
        span.within(data@.len() as int),
        span.end - span.start == 8 * n,
    ensures
        r@ == counts_at(data@, span.start as int, n as int),
{
    let mut out: Vec<(u32, u32)> = Vec::new();
    let mut i: u32 = 0;
    while i < n
        invariant
            span.within(data@.len() as int),
            span.end - span.start == 8 * n,
            0 <= i <= n,
            out@.len() == i,
            forall|k: int|
                0 <= k < i ==> out@[k] == (
                    u32_at(data@, span.start + 8 * k) as u32,
                    u32_at(data@, span.start + 8 * k + 4) as u32,
                ),
        decreases n - i,
    {
        let at: usize = span.start + 8 * (i as usize);
        match (read_u32(data, at), read_u32(data, at + 4)) {
            (Some(conn), Some(count)) => {
                out.push((conn, count));
            },
            _ => {
                assert(false);
            },
        }
        i += 1;
    }
    assert(out@ =~= counts_at(data@, span.start as int, n as int));
    out
}

/// A compressed region of the recording: where its record starts, the codec
/// it names, where its payload lies and how long the payload is once
/// decompressed.
#[derive(Debug, Clone, PartialEq, Eq)]
pub struct Chunk {
    pub offset: usize,
    pub compression: String,
    pub data: Span,
    pub size: u32,
}

/// The mathematical counterpart of [`Chunk`].
pub struct ChunkView {
    pub offset: usize,
    pub compression: Seq<char>,
    pub data: Span,
    pub size: u32,
}

impl View for Chunk {
    type V = ChunkView;

    open spec fn view(&self) -> ChunkView {
        ChunkView {
            offset: self.offset,
            compression: self.compression@,
            data: self.data,
            size: self.size,
        }
    }
}

/// What the index says of one chunk: the times of its first and last
/// message, and for each connection the number of its messages.
#[derive(Debug, Clone, PartialEq, Eq)]
pub struct ChunkInfo {
    pub start_time: Time,
    pub end_time: Time,
    pub counts: Vec<(u32, u32)>,
}

/// The mathematical counterpart of [`ChunkInfo`].
pub struct ChunkInfoView {
    pub start_time: Time,
    pub end_time: Time,
    pub counts: Seq<(u32, u32)>,
}

impl View for ChunkInfo {
    type V = ChunkInfoView;

    open spec fn view(&self) -> ChunkInfoView {
        ChunkInfoView {
            start_time: self.start_time,
            end_time: self.end_time,
            counts: self.counts@,
        }
    }
}

/// A chunk together with what is known of its messages.
#[derive(Debug, Clone, PartialEq, Eq)]
pub struct ChunkEntry {
    pub chunk: Chunk,
    pub info: ChunkInfo,
}

/// The mathematical counterpart of [`ChunkEntry`].
pub struct ChunkEntryView {
    pub chunk: ChunkView,
    pub info: ChunkInfoView,
}

impl View for ChunkEntry {
    type V = ChunkEntryView;

    open spec fn view(&self) -> ChunkEntryView {
        ChunkEntryView { chunk: self.chunk@, info: self.info@ }
    }
}

impl ChunkEntryView {
    /// The entry is a chunk of `s`, read from where it says it starts, whose
    /// payload lies in `s` and whose times are in order.
    pub open spec fn anchored(self, s: Seq<u8>) -> bool {
        &&& chunk_at(s, self.chunk.offset as int) == Some(self.chunk)
        &&& self.chunk.offset <= self.chunk.data.start
        &&& self.chunk.data.within(s.len() as int)
        &&& self.info.start_time.nanos() <= self.info.end_time.nanos()
    }
}

/// Whether each chunk starts where the chunks before it have ended, or
/// later.
pub open spec fn in_file_order(chunks: Seq<ChunkEntryView>) -> bool {
    forall|i: int, j: int|
        0 <= i < j < chunks.len() ==> (#[trigger] chunks[i]).chunk.data.end <= (
        #[trigger] chunks[j]).chunk.offset
}

/// Whether a chunk that starts at `offset` comes behind all of `chunks`.
pub open spec fn ends_before(chunks: Seq<ChunkEntryView>, offset: int) -> bool {
    forall|i: int| 0 <= i < chunks.len() ==> (#[trigger] chunks[i]).chunk.data.end <= offset
}

/// The views of a list of chunk entries.
pub open spec fn entry_views(entries: Seq<ChunkEntry>) -> Seq<ChunkEntryView> {
    Seq::new(entries.len(), |i: int| entries[i]@)
}

/// The connections of a recording, each number once, and its chunks in file
/// order.
#[derive(Debug, Clone, PartialEq, Eq)]
pub struct Catalog {
    pub connections: Vec<Connection>,
    pub chunks: Vec<ChunkEntry>,
}

/// The mathematical counterpart of [`Catalog`].
pub struct CatalogView {
    pub connections: Seq<ConnectionView>,
    pub chunks: Seq<ChunkEntryView>,
}

impl View for Catalog {
    type V = CatalogView;

    open spec fn view(&self) -> CatalogView {
        CatalogView {
            connections: connection_views(self.connections@),
            chunks: entry_views(self.chunks@),
        }
    }
}

impl CatalogView {
    /// The catalog of a recording without connections and chunks.
    pub open spec fn empty() -> CatalogView {
        CatalogView { connections: Seq::empty(), chunks: Seq::empty() }
    }

    /// The catalog with one more connection, unless its number is taken.
    pub open spec fn connect(self, c: ConnectionView) -> CatalogView {
        CatalogView { connections: with_connection(self.connections, c), chunks: self.chunks }
    }

    /// The catalog with one more chunk at its end.
    pub open spec fn append(self, e: ChunkEntryView) -> CatalogView {
        CatalogView { connections: self.connections, chunks: self.chunks.push(e) }
    }

    /// No two connections share a number; every entry is a chunk of `s`,
    /// read from where it says it starts, whose payload lies in `s` and whose
    /// times are in order; and the chunks follow one another in `s` without
    /// overlap.
    pub open spec fn wf(self, s: Seq<u8>) -> bool {
        &&& distinct_ids(self.connections)
        &&& forall|i: int| 0 <= i < self.chunks.len() ==> (#[trigger] self.chunks[i]).anchored(s)
        &&& in_file_order(self.chunks)
    }
}

impl Catalog {
    /// A catalog without connections and chunks.
    pub fn new() -> (r: Catalog)
        ensures
            r@ == CatalogView::empty(),
    {
        let r = Catalog { connections: Vec::new(), chunks: Vec::new() };
        assert(r@.connections =~= Seq::empty());
        assert(r@.chunks =~= Seq::empty());
        r
    }

    /// Adds a chunk at the end.
    pub fn push_chunk(&mut self, e: ChunkEntry)
        ensures
            final(self)@ == old(self)@.append(e@),
    {
        self.chunks.push(e);
        assert(entry_views(self.chunks@) =~= entry_views(old(self).chunks@).push(e@));
    }

    /// Adds a connection unless its number is taken.
    pub fn connect(&mut self, c: Connection)
        ensures
            final(self)@ == old(self)@.connect(c@),
    {
        add_connection(&mut self.connections, c);
    }
}

/// The chunk whose record starts at `pos`; `None` when there is no chunk
/// record there or its codec name is not UTF-8.
pub open spec fn chunk_at(s: Seq<u8>, pos: int) -> Option<ChunkView> {
    match record_at(s, pos) {
        Some(p) => match p.record {
            Record::Chunk { compression, size, data } => match text_of(compression.of(s)) {
                Some(name) => Some(
                    ChunkView { offset: pos as usize, compression: name, data, size },
                ),
                None => None,
            },
            _ => None,
        },
        None => None,
    }
}

/// The entry that a chunk-info record stands for: the chunk at `chunk_pos`
/// with the times and counts of the record. `None` when the times are out of
/// order or there is no chunk at `chunk_pos`.
pub open spec fn entry_at(
    s: Seq<u8>,
    chunk_pos: u64,
    start_time: Time,
    end_time: Time,
    count: u32,
    data: Span,
) -> Option<ChunkEntryView> {
    if chunk_pos > usize::MAX || start_time.nanos() > end_time.nanos() {
        None
    } else {
        match chunk_at(s, chunk_pos as int) {
            Some(chunk) => Some(
                ChunkEntryView {
                    chunk,
                    info: ChunkInfoView {
                        start_time,
                        end_time,
                        counts: counts_at(s, data.start as int, count as int),
                    },
                },
            ),
            None => None,
        }
    }
}

/// Reads the chunk whose record starts at `pos`.
pub fn read_chunk_at(data: &[u8], pos: usize) -> (r: Option<Chunk>)
    ensures
        match r {
            Some(c) => chunk_at(data@, pos as int) == Some(c@) && c.data.within(
                data@.len() as int,
            ) && c.offset == pos && pos + 8 <= c.data.start && c.data.end == record_at(
                data@,
                pos as int,
            )->0.next,
            None => chunk_at(data@, pos as int) is None,
        },
{
    if pos >= data.len() {
        return None;
    }
    match parse_record(data, pos) {
        Ok(p) => match p.record {
            Record::Chunk { compression, size, data: payload } => {
                proof {
                    lemma_record_spans(data@, pos as int);
                }
                match read_text(data, compression.start, compression.end) {
                    Some(name) => Some(
                        Chunk { offset: pos, compression: name, data: payload, size },
                    ),
                    None => None,
                }
            },
            _ => None,
        },
        Err(_) => None,
    }
}

/// The spans of a record lie inside the source, in order.
pub proof fn lemma_record_spans(s: Seq<u8>, pos: int)
    requires
        record_at(s, pos) is Some,
        s.len() <= usize::MAX,
    ensures
        pos + 8 <= record_at(s, pos)->0.next <= s.len(),
        match record_at(s, pos)->0.record {
            Record::BagHeader { .. } => true,
            Record::Chunk { compression, size, data } => compression.within(s.len() as int)
                && data.within(s.len() as int) && data.end == record_at(s, pos)->0.next && pos + 8
                <= data.start,
            Record::Connection { conn, topic, data } => topic.within(s.len() as int)
                && data.within(s.len() as int) && data.end == record_at(s, pos)->0.next,
            Record::MessageData { conn, time, data } => data.within(s.len() as int) && data.end
                == record_at(s, pos)->0.next,
            Record::IndexData { conn, count, data } => data.within(s.len() as int) && data.end
                - data.start == 12 * count,
            Record::ChunkInfo { chunk_pos, start_time, end_time, count, data } => data.within(
                s.len() as int,
            ) && data.end - data.start == 8 * count,
        },
{
    reveal(crate::record::typed_record);
    let f = crate::record::frame_at(s, pos)->0;
    crate::record::lemma_field_within(s, f.header.start as int, f.header.end as int, key("compression"));
    crate::record::lemma_field_within(s, f.header.start as int, f.header.end as int, key("topic"));
}

/// Reads the entry that a chunk-info record stands for.
pub fn read_entry(
    data: &[u8],
    chunk_pos: u64,
    start_time: Time,
    end_time: Time,
    count: u32,
    span: Span,
) -> (r: Option<ChunkEntry>)
    requires
        span.within(data@.len() as int),
        span.end - span.start == 8 * count,
    ensures
        match r {
            Some(e) => entry_at(data@, chunk_pos, start_time, end_time, count, span) == Some(e@)
                && e@.anchored(data@),
            None => entry_at(data@, chunk_pos, start_time, end_time, count, span) is None,
        },
{
    if end_time.lt(&start_time) {
        return None;
    }
    let pos: usize = match to_index(chunk_pos) {
        Some(pos) => pos,
        None => {
            return None;
        },
    };
    match read_chunk_at(data, pos) {
        Some(chunk) => {
            let counts: Vec<(u32, u32)> = read_counts(data, span, count);
            Some(ChunkEntry { chunk, info: ChunkInfo { start_time, end_time, counts } })
        },
        None => None,
    }
}

/// The catalog that the records from `pos` to the end of `s` add to `acc`,
/// where each of them is a connection record or a chunk-info record, in any
/// order. `None` when one of them is malformed or of another kind, or when
/// a chunk-info record names a chunk that does not lie behind the chunks
/// named before it.
pub open spec fn index_from(s: Seq<u8>, pos: int, acc: CatalogView) -> Option<CatalogView>
    decreases s.len() - pos,
{
    if pos >= s.len() {
        Some(acc)
    } else {
        match record_at(s, pos) {
            None => None,
            Some(p) => if p.next <= pos {
                None
            } else {
                match p.record {
                    Record::Connection { conn, topic, data } => match connection_at(
                        s,
                        conn,
                        topic,
                        data,
                    ) {
                        Some(c) => index_from(s, p.next as int, acc.connect(c)),
                        None => None,
                    },
                    Record::ChunkInfo {
                        chunk_pos,
                        start_time,
                        end_time,
                        count,
                        data,
                    } => match entry_at(s, chunk_pos, start_time, end_time, count, data) {
                        Some(e) => if ends_before(acc.chunks, e.chunk.offset as int) {
                            index_from(s, p.next as int, acc.append(e))
                        } else {
                            None
                        },
                        None => None,
                    },
                    _ => None,
                }
            },
        }
    }
}

/// Adding a connection keeps a catalog well-formed.
pub proof fn lemma_wf_connect(s: Seq<u8>, acc: CatalogView, c: ConnectionView)
    requires
        acc.wf(s),
    ensures
        acc.connect(c).wf(s),
{
    lemma_with_connection_distinct(acc.connections, c);
}

/// Adding a chunk of `s` that lies behind the chunks of a catalog keeps the
/// catalog well-formed.
pub proof fn lemma_wf_append(s: Seq<u8>, acc: CatalogView, e: ChunkEntryView)
    requires
        acc.wf(s),
        e.anchored(s),
        ends_before(acc.chunks, e.chunk.offset as int),
    ensures
        acc.append(e).wf(s),
{
}

/// Whether the last chunk of a catalog ends at `offset` or before it.
pub fn comes_behind(catalog: &Catalog, offset: usize) -> (r: bool)
    requires
        in_file_order(catalog@.chunks),
        forall|i: int|
            0 <= i < catalog@.chunks.len() ==> (#[trigger] catalog@.chunks[i]).chunk.offset
                <= catalog@.chunks[i].chunk.data.end,
    ensures
        r == ends_before(catalog@.chunks, offset as int),
{
    let n: usize = catalog.chunks.len();
    if n == 0 {
        return true;
    }
    assert(catalog@.chunks[n - 1] == catalog.chunks@[n - 1]@);
    let r: bool = catalog.chunks[n - 1].chunk.data.end <= offset;
    proof {
        if r {
            assert forall|i: int| 0 <= i < catalog@.chunks.len() implies (
            #[trigger] catalog@.chunks[i]).chunk.data.end <= offset by {
                if i < n - 1 {
                    assert(catalog@.chunks[i].chunk.data.end <= catalog@.chunks[n - 1].chunk.offset);
                }
            }
        }
    }
    r
}

/// Reads the trailing index section that starts at `start`.
pub fn read_index_section(data: &[u8], start: usize) -> (r: Option<Catalog>)
    ensures
        match r {
            Some(c) => index_from(data@, start as int, CatalogView::empty()) == Some(c@)
                && c@.wf(data@),
            None => index_from(data@, start as int, CatalogView::empty()) is None,
        },
{
    let len: usize = data.len();
    let mut catalog: Catalog = Catalog::new();
    let mut pos: usize = start;
    while pos < len
        invariant
            len == data@.len(),
            catalog@.wf(data@),
            index_from(data@, start as int, CatalogView::empty()) == index_from(
                data@,
                pos as int,
                catalog@,
            ),
        decreases data@.len() - pos,
    {
        let p: Parsed = match parse_record(data, pos) {
            Ok(p) => p,
            Err(_) => {
                return None;
            },
        };
        proof {
            lemma_record_spans(data@, pos as int);
        }
        let ghost before = catalog@;
        match p.record {
            Record::Connection { conn, topic, data: span } => {
                match read_connection(data, conn, topic, span) {
                    Some(c) => {
                        proof {
                            lemma_wf_connect(data@, before, c@);
                        }
                        catalog.connect(c);
                    },
                    None => {
                        return None;
                    },
                }
            },
            Record::ChunkInfo { chunk_pos, start_time, end_time, count, data: span } => {
                match read_entry(data, chunk_pos, start_time, end_time, count, span) {
                    Some(e) => {
                        if !comes_behind(&catalog, e.chunk.offset) {
                            return None;
                        }
                        proof {
                            lemma_wf_append(data@, before, e@);
                        }
                        catalog.push_chunk(e);
                    },
                    None => {
                        return None;
                    },
                }
            },
            _ => {
                return None;
            },
        }
        pos = p.next;
    }
    Some(catalog)
}

/// The length of the version line that opens a recording.
pub const MAGIC_LEN: usize = 13;

/// Whether `s` opens with the version line of the supported format.
pub open spec fn has_magic(s: Seq<u8>) -> bool {
    s.len() >= MAGIC_LEN && s.subrange(0, MAGIC_LEN as int) == key("#ROSBAG V2.0\n")
}

/// Checks the version line.
pub fn check_magic(data: &[u8]) -> (r: bool)
    ensures
        r == has_magic(data@),
{
    data.len() >= MAGIC_LEN && span_is(data, 0, MAGIC_LEN, "#ROSBAG V2.0\n".as_bytes())
}

/// The catalog that the trailing index of `s` gives. The index is missing
/// when the leading record places it at zero or past the end, declares no
/// connection and no chunk, or declares other numbers of them than the
/// section holds.
pub open spec fn indexed_catalog(s: Seq<u8>) -> Result<CatalogView, Fault> {
    match record_at(s, MAGIC_LEN as int) {
        Some(p) => match p.record {
            Record::BagHeader { index_pos, conn_count, chunk_count } => if index_pos == 0
                || index_pos >= s.len() || (conn_count == 0 && chunk_count == 0) {
                Err(Fault::MissingIndex)
            } else {
                match index_from(s, index_pos as int, CatalogView::empty()) {
                    Some(c) => if c.connections.len() == conn_count && c.chunks.len()
                        == chunk_count {
                        Ok(c)
                    } else {
                        Err(Fault::MissingIndex)
                    },
                    None => Err(Fault::MalformedRecord),
                }
            },
            _ => Err(Fault::MalformedRecord),
        },
        None => Err(Fault::MalformedRecord),
    }
}

/// Builds the catalog from the trailing index.
pub fn read_indexed(data: &[u8]) -> (r: Result<Catalog, Error>)
    ensures
        match r {
            Ok(c) => indexed_catalog(data@) == Ok::<CatalogView, Fault>(c@) && c@.wf(data@),
            Err(e) => indexed_catalog(data@) == Err::<CatalogView, Fault>(e@),
        },
{
    let p: Parsed = match parse_record(data, MAGIC_LEN) {
        Ok(p) => p,
        Err(e) => {
            return Err(e);
        },
    };
    match p.record {
        Record::BagHeader { index_pos, conn_count, chunk_count } => {
            if index_pos == 0 || index_pos >= data.len() as u64 || (conn_count == 0 && chunk_count
                == 0) {
                return Err(Error::MissingIndex);
            }
            match read_index_section(data, index_pos as usize) {
                Some(c) => if c.connections.len() as u64 == conn_count as u64
                    && c.chunks.len() as u64 == chunk_count as u64 {
                    Ok(c)
                } else {
                    Err(Error::MissingIndex)
                },
                None => Err(Error::MalformedRecord),
            }
        },
        _ => Err(Error::MalformedRecord),
    }
}

} // verus!
