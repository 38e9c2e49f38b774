//! The record codec: length-prefixed framing, header fields, and the typed
//! records built from them.
//!
//! A record is a 4-byte little-endian header length, the header, a 4-byte
//! little-endian data length, and the data. A header is a run of fields, each
//! a 4-byte little-endian length followed by `name=value`.

use crate::bytes::{in_bounds, read_u32, read_u64, span_is, u32_at, u64_at};
use crate::errors::Error;
use crate::time::{Time, NANOS_PER_SEC};
use vstd::prelude::*;
use vstd::string::StringSliceAdditionalSpecFns;

verus! {

/// A range of positions in a byte source.
#[derive(Clone, Copy, Debug, PartialEq, Eq, Structural)]
pub struct Span {
    pub start: usize,
    pub end: usize,
}

impl Span {
    /// The range is ordered and lies inside a source of length `len`.
    pub open spec fn within(self, len: int) -> bool {
        self.start <= self.end && self.end <= len
    }

    /// The bytes of `s` that the range covers.
    pub open spec fn of(self, s: Seq<u8>) -> Seq<u8> {
        s.subrange(self.start as int, self.end as int)
    }

    /// The number of bytes in the range.
    pub fn len(&self) -> (r: usize)
        requires
            self.start <= self.end,
        ensures
            r == self.end - self.start,
    {
        self.end - self.start
    }
}

/// Where the header and the data of one record lie. The next record starts
/// where the data ends.
#[derive(Clone, Copy, Debug, PartialEq, Eq, Structural)]
pub struct Frame {
    pub header: Span,
    pub data: Span,
}

/// The frame of the record that starts at `pos`, if its two declared lengths
/// fit in what is left of `s`.
pub open spec fn frame_at(s: Seq<u8>, pos: int) -> Option<Frame> {
    if !in_bounds(s.len() as int, pos, 4) {
        None
    } else {
        let header_end = pos + 4 + u32_at(s, pos);
        if !in_bounds(s.len() as int, header_end, 4) {
            None
        } else {
            let data_end = header_end + 4 + u32_at(s, header_end);
            if data_end > s.len() {
                None
            } else {
                Some(
                    Frame {
                        header: Span { start: (pos + 4) as usize, end: header_end as usize },
                        data: Span { start: (header_end + 4) as usize, end: data_end as usize },
                    },
                )
            }
        }
    }
}

/// The position of the first `=` between `start` and `end`, or `end`.
pub open spec fn find_eq(s: Seq<u8>, start: int, end: int) -> int
    decreases end - start,
{
    if start >= end {
        end
    } else if s[start] == 61u8 {
        start
    } else {
        find_eq(s, start + 1, end)
    }
}

/// Whether the bytes between `start` and `end` are a run of complete
/// fields, each holding an `=`.
pub open spec fn fields_ok(s: Seq<u8>, start: int, end: int) -> bool
    decreases end - start,
{
    if start >= end {
        start == end
    } else if start + 4 > end {
        false
    } else {
        let field_end = start + 4 + u32_at(s, start);
        &&& field_end <= end
        &&& find_eq(s, start + 4, field_end) < field_end
        &&& fields_ok(s, field_end, end)
    }
}

/// The value of the first field between `start` and `end` whose name is
/// `name`.
pub open spec fn field(s: Seq<u8>, start: int, end: int, name: Seq<u8>) -> Option<Span>
    decreases end - start,
{
    if start + 4 > end {
        None
    } else {
        let field_end = start + 4 + u32_at(s, start);
        if field_end > end {
            None
        } else {
            let eq = find_eq(s, start + 4, field_end);
            if eq < field_end && s.subrange(start + 4, eq) == name {
                Some(Span { start: (eq + 1) as usize, end: field_end as usize })
            } else {
                field(s, field_end, end, name)
            }
        }
    }
}

/// The one-byte value of field `name` in header `h`.
pub open spec fn field_u8(s: Seq<u8>, h: Span, name: Seq<u8>) -> Option<u8> {
    match field(s, h.start as int, h.end as int, name) {
        Some(v) => if v.end - v.start == 1 {
            Some(s[v.start as int])
        } else {
            None
        },
        None => None,
    }
}

/// The four-byte integer value of field `name` in header `h`.
pub open spec fn field_u32(s: Seq<u8>, h: Span, name: Seq<u8>) -> Option<u32> {
    match field(s, h.start as int, h.end as int, name) {
        Some(v) => if v.end - v.start == 4 {
            Some(u32_at(s, v.start as int) as u32)
        } else {
            None
        },
        None => None,
    }
}

/// The eight-byte integer value of field `name` in header `h`.
pub open spec fn field_u64(s: Seq<u8>, h: Span, name: Seq<u8>) -> Option<u64> {
    match field(s, h.start as int, h.end as int, name) {
        Some(v) => if v.end - v.start == 8 {
            Some(u64_at(s, v.start as int) as u64)
        } else {
            None
        },
        None => None,
    }
}

/// The time held by field `name` in header `h`: seconds, then nanoseconds
/// below one second.
pub open spec fn field_time(s: Seq<u8>, h: Span, name: Seq<u8>) -> Option<Time> {
    match field(s, h.start as int, h.end as int, name) {
        Some(v) => if v.end - v.start == 8 && u32_at(s, v.start + 4) < NANOS_PER_SEC {
            Some(Time { secs: u32_at(s, v.start as int) as u32, nsecs: u32_at(s, v.start + 4) as u32 })
        } else {
            None
        },
        None => None,
    }
}

/// Reads the frame of the record at `pos`.
pub fn read_frame(data: &[u8], pos: usize) -> (r: Option<Frame>)
    ensures
        r == frame_at(data@, pos as int),
        r is Some ==> {
            &&& pos + 4 == r->0.header.start
            &&& r->0.header.start <= r->0.header.end
            &&& r->0.header.end + 4 == r->0.data.start
            &&& r->0.data.start <= r->0.data.end <= data@.len()
        },
{
    let len: usize = data.len();
    let header_len: usize = match read_u32(data, pos) {
        Some(n) => n as usize,
        None => {
            return None;
        },
    };
    let header_start: usize = pos + 4;
    if header_len > len - header_start {
        return None;
    }
    let header_end: usize = header_start + header_len;
    let data_len: usize = match read_u32(data, header_end) {
        Some(n) => n as usize,
        None => {
            return None;
        },
    };
    let data_start: usize = header_end + 4;
    if data_len > len - data_start {
        return None;
    }
    Some(
        Frame {
            header: Span { start: header_start, end: header_end },
            data: Span { start: data_start, end: data_start + data_len },
        },
    )
}

/// Finds the first `=` between `start` and `end`; `end` when there is none.
pub fn find_equals(data: &[u8], start: usize, end: usize) -> (r: usize)
    requires
        start <= end <= data@.len(),
    ensures
        r == find_eq(data@, start as int, end as int),
        start <= r <= end,
{
    let mut i: usize = start;
    while i < end
        invariant
            start <= i <= end <= data@.len(),
            find_eq(data@, start as int, end as int) == find_eq(data@, i as int, end as int),
        decreases end - i,
    {
        if data[i] == 61 {
            return i;
        }
        i += 1;
    }
    i
}

/// Checks that header `h` is a run of complete fields.
pub fn header_ok(data: &[u8], h: Span) -> (r: bool)
    requires
        h.within(data@.len() as int),
    ensures
        r == fields_ok(data@, h.start as int, h.end as int),
{
    let mut cur: usize = h.start;
    while cur < h.end
        invariant
            h.start <= cur <= h.end <= data@.len(),
            fields_ok(data@, h.start as int, h.end as int) == fields_ok(
                data@,
                cur as int,
                h.end as int,
            ),
        decreases h.end - cur,
    {
        if h.end - cur < 4 {
            return false;
        }
        let n: usize = match read_u32(data, cur) {
            Some(n) => n as usize,
            None => {
                return false;
            },
        };
        let field_start: usize = cur + 4;
        if n > h.end - field_start {
            return false;
        }
        let field_end: usize = field_start + n;
        let eq: usize = find_equals(data, field_start, field_end);
        if eq == field_end {
            return false;
        }
        cur = field_end;
    }
    true
}

/// Looks up the value of the first field of header `h` called `name`.
pub fn find_field(data: &[u8], h: Span, name: &[u8]) -> (r: Option<Span>)
    requires
        h.within(data@.len() as int),
    ensures
        r == field(data@, h.start as int, h.end as int, name@),
        r is Some ==> h.start < r->0.start <= r->0.end <= h.end,
{
    let mut cur: usize = h.start;
    while h.end - cur >= 4
        invariant
            h.start <= cur <= h.end <= data@.len(),
            field(data@, h.start as int, h.end as int, name@) == field(
                data@,
                cur as int,
                h.end as int,
                name@,
            ),
        decreases h.end - cur,
    {
        let n: usize = match read_u32(data, cur) {
            Some(n) => n as usize,
            None => {
                return None;
            },
        };
        let field_start: usize = cur + 4;
        if n > h.end - field_start {
            return None;
        }
        let field_end: usize = field_start + n;
        let eq: usize = find_equals(data, field_start, field_end);
        if eq < field_end && span_is(data, field_start, eq, name) {
            return Some(Span { start: eq + 1, end: field_end });
        }
        cur = field_end;
    }
    None
}

/// Reads the one-byte field `name` of header `h`.
pub fn get_u8(data: &[u8], h: Span, name: &[u8]) -> (r: Option<u8>)
    requires
        h.within(data@.len() as int),
    ensures
        r == field_u8(data@, h, name@),
{
    match find_field(data, h, name) {
        Some(v) => if v.end - v.start == 1 {
            Some(data[v.start])
        } else {
            None
        },
        None => None,
    }
}

/// Reads the four-byte integer field `name` of header `h`.
pub fn get_u32(data: &[u8], h: Span, name: &[u8]) -> (r: Option<u32>)
    requires
        h.within(data@.len() as int),
    ensures
        r == field_u32(data@, h, name@),
{
    match find_field(data, h, name) {
        Some(v) => if v.end - v.start == 4 {
            read_u32(data, v.start)
        } else {
            None
        },
        None => None,
    }
}

/// Reads the eight-byte integer field `name` of header `h`.
pub fn get_u64(data: &[u8], h: Span, name: &[u8]) -> (r: Option<u64>)
    requires
        h.within(data@.len() as int),
    ensures
        r == field_u64(data@, h, name@),
{
    match find_field(data, h, name) {
        Some(v) => if v.end - v.start == 8 {
            read_u64(data, v.start)
        } else {
            None
        },
        None => None,
    }
}

/// Reads the time field `name` of header `h`.
pub fn get_time(data: &[u8], h: Span, name: &[u8]) -> (r: Option<Time>)
    requires
        h.within(data@.len() as int),
    ensures
        r == field_time(data@, h, name@),
{
    match find_field(data, h, name) {
        Some(v) => if v.end - v.start == 8 {
            match (read_u32(data, v.start), read_u32(data, v.start + 4)) {
                (Some(secs), Some(nsecs)) => Time::new(secs, nsecs),
                _ => None,
            }
        } else {
            None
        },
        None => None,
    }
}

/// The bytes of a field name.
pub open spec fn key(name: &str) -> Seq<u8> {
    name.spec_bytes()
}

/// One record, by kind, with the header fields that its kind requires and
/// the place of its data.
#[derive(Clone, Copy, Debug, PartialEq, Eq, Structural)]
pub enum Record {
    /// The first record of a recording: where the trailing index starts and
    /// how many connections and chunks it lists.
    BagHeader { index_pos: u64, conn_count: u32, chunk_count: u32 },
    /// A compressed container of connection and message records.
    Chunk { compression: Span, size: u32, data: Span },
    /// The registration of a topic; the data is a header of its own.
    Connection { conn: u32, topic: Span, data: Span },
    /// One message on a connection.
    MessageData { conn: u32, time: Time, data: Span },
    /// The times and offsets of one connection's messages in the chunk that
    /// precedes it: `count` entries of twelve bytes.
    IndexData { conn: u32, count: u32, data: Span },
    /// The time range and the message counts of one chunk: `count` entries
    /// of eight bytes.
    ChunkInfo { chunk_pos: u64, start_time: Time, end_time: Time, count: u32, data: Span },
}

/// A record and the position of the record after it.
#[derive(Clone, Copy, Debug, PartialEq, Eq, Structural)]
pub struct Parsed {
    pub record: Record,
    pub next: usize,
}

/// Operation code of a message record.
pub const OP_MESSAGE: u8 = 2;

/// Operation code of the leading bag header record.
pub const OP_BAG_HEADER: u8 = 3;

/// Operation code of an index record.
pub const OP_INDEX: u8 = 4;

/// Operation code of a chunk record.
pub const OP_CHUNK: u8 = 5;

/// Operation code of a chunk-info record.
pub const OP_CHUNK_INFO: u8 = 6;

/// Operation code of a connection record.
pub const OP_CONNECTION: u8 = 7;

/// The only version of index and chunk-info records.
pub const INDEX_VERSION: u32 = 1;

/// The leading record that frame `f` holds: it needs `index_pos`,
/// `conn_count` and `chunk_count`.
pub open spec fn bag_header_of(s: Seq<u8>, f: Frame) -> Option<Record> {
    match (
        field_u64(s, f.header, key("index_pos")),
        field_u32(s, f.header, key("conn_count")),
        field_u32(s, f.header, key("chunk_count")),
    ) {
        (Some(index_pos), Some(conn_count), Some(chunk_count)) => Some(
            Record::BagHeader { index_pos, conn_count, chunk_count },
        ),
        _ => None,
    }
}

/// The chunk record that frame `f` holds: it needs `compression` and
/// `size`.
pub open spec fn chunk_of(s: Seq<u8>, f: Frame) -> Option<Record> {
    match (
        field(s, f.header.start as int, f.header.end as int, key("compression")),
        field_u32(s, f.header, key("size")),
    ) {
        (Some(compression), Some(size)) => Some(Record::Chunk { compression, size, data: f.data }),
        _ => None,
    }
}

/// The connection record that frame `f` holds: it needs `conn` and
/// `topic`.
pub open spec fn connection_of(s: Seq<u8>, f: Frame) -> Option<Record> {
    match (
        field_u32(s, f.header, key("conn")),
        field(s, f.header.start as int, f.header.end as int, key("topic")),
    ) {
        (Some(conn), Some(topic)) => Some(Record::Connection { conn, topic, data: f.data }),
        _ => None,
    }
}

/// The message record that frame `f` holds: it needs `conn` and `time`.
pub open spec fn message_of(s: Seq<u8>, f: Frame) -> Option<Record> {
    match (field_u32(s, f.header, key("conn")), field_time(s, f.header, key("time"))) {
        (Some(conn), Some(time)) => Some(Record::MessageData { conn, time, data: f.data }),
        _ => None,
    }
}

/// The index record that frame `f` holds: it needs `ver`, `conn` and
/// `count`, the one known version, and twelve bytes of data for each entry.
pub open spec fn index_of(s: Seq<u8>, f: Frame) -> Option<Record> {
    match (
        field_u32(s, f.header, key("ver")),
        field_u32(s, f.header, key("conn")),
        field_u32(s, f.header, key("count")),
    ) {
        (Some(ver), Some(conn), Some(count)) => if ver == INDEX_VERSION && f.data.end
            - f.data.start == 12 * count {
            Some(Record::IndexData { conn, count, data: f.data })
        } else {
            None
        },
        _ => None,
    }
}

/// The chunk-info record that frame `f` holds: it needs `ver`, `chunk_pos`,
/// `start_time`, `end_time` and `count`, the one known version, and eight
/// bytes of data for each entry.
pub open spec fn chunk_info_of(s: Seq<u8>, f: Frame) -> Option<Record> {
    match (
        field_u32(s, f.header, key("ver")),
        field_u64(s, f.header, key("chunk_pos")),
        field_time(s, f.header, key("start_time")),
        field_time(s, f.header, key("end_time")),
        field_u32(s, f.header, key("count")),
    ) {
        (Some(ver), Some(chunk_pos), Some(start_time), Some(end_time), Some(count)) => if ver
            == INDEX_VERSION && f.data.end - f.data.start == 8 * count {
            Some(Record::ChunkInfo { chunk_pos, start_time, end_time, count, data: f.data })
        } else {
            None
        },
        _ => None,
    }
}

/// The record that frame `f` holds: its kind by the `op` field, and the
/// fields that the kind requires.
#[verifier::opaque]
pub open spec fn typed_record(s: Seq<u8>, f: Frame) -> Option<Record> {
    match field_u8(s, f.header, key("op")) {
        None => None,
        Some(op) => if op == OP_MESSAGE {
            message_of(s, f)
        } else if op == OP_BAG_HEADER {
            bag_header_of(s, f)
        } else if op == OP_INDEX {
            index_of(s, f)
        } else if op == OP_CHUNK {
            chunk_of(s, f)
        } else if op == OP_CHUNK_INFO {
            chunk_info_of(s, f)
        } else if op == OP_CONNECTION {
            connection_of(s, f)
        } else {
            None
        },
    }
}

/// The record at `pos`; `None` when it is malformed: a declared length
/// exceeds what is left, the header is not a run of fields, the `op` field is
/// missing or unknown, or a field that the kind requires is missing or has
/// the wrong width.
pub open spec fn record_at(s: Seq<u8>, pos: int) -> Option<Parsed> {
    match frame_at(s, pos) {
        None => None,
        Some(f) => if !fields_ok(s, f.header.start as int, f.header.end as int) {
            None
        } else {
            match typed_record(s, f) {
                None => None,
                Some(record) => Some(Parsed { record, next: f.data.end }),
            }
        },
    }
}

/// Reads the fields of a leading record.
fn read_bag_header(data: &[u8], f: Frame) -> (r: Option<Record>)
    requires
        f.header.within(data@.len() as int),
    ensures
        r == bag_header_of(data@, f),
{
    let index_pos = get_u64(data, f.header, "index_pos".as_bytes());
    let conn_count = get_u32(data, f.header, "conn_count".as_bytes());
    let chunk_count = get_u32(data, f.header, "chunk_count".as_bytes());
    match (index_pos, conn_count, chunk_count) {
        (Some(index_pos), Some(conn_count), Some(chunk_count)) => Some(
            Record::BagHeader { index_pos, conn_count, chunk_count },
        ),
        _ => None,
    }
}

/// Reads the fields of a chunk record.
fn read_chunk(data: &[u8], f: Frame) -> (r: Option<Record>)
    requires
        f.header.within(data@.len() as int),
    ensures
        r == chunk_of(data@, f),
{
    let compression = find_field(data, f.header, "compression".as_bytes());
    let size = get_u32(data, f.header, "size".as_bytes());
    match (compression, size) {
        (Some(compression), Some(size)) => Some(Record::Chunk { compression, size, data: f.data }),
        _ => None,
    }
}

/// Reads the fields of a connection record.
fn read_connection(data: &[u8], f: Frame) -> (r: Option<Record>)
    requires
        f.header.within(data@.len() as int),
    ensures
        r == connection_of(data@, f),
{
    let conn = get_u32(data, f.header, "conn".as_bytes());
    let topic = find_field(data, f.header, "topic".as_bytes());
    match (conn, topic) {
        (Some(conn), Some(topic)) => Some(Record::Connection { conn, topic, data: f.data }),
        _ => None,
    }
}

/// Reads the fields of a message record.
fn read_message(data: &[u8], f: Frame) -> (r: Option<Record>)
    requires
        f.header.within(data@.len() as int),
    ensures
        r == message_of(data@, f),
{
    let conn = get_u32(data, f.header, "conn".as_bytes());
    let time = get_time(data, f.header, "time".as_bytes());
    match (conn, time) {
        (Some(conn), Some(time)) => Some(Record::MessageData { conn, time, data: f.data }),
        _ => None,
    }
}

/// Reads the fields of an index record.
fn read_index(data: &[u8], f: Frame) -> (r: Option<Record>)
    requires
        f.header.within(data@.len() as int),
        f.data.start <= f.data.end,
    ensures
        r == index_of(data@, f),
{
    let ver = get_u32(data, f.header, "ver".as_bytes());
    let conn = get_u32(data, f.header, "conn".as_bytes());
    let count = get_u32(data, f.header, "count".as_bytes());
    match (ver, conn, count) {
        (Some(ver), Some(conn), Some(count)) => {
            let width: u64 = (f.data.end - f.data.start) as u64;
            if ver == INDEX_VERSION && width == 12 * (count as u64) {
                Some(Record::IndexData { conn, count, data: f.data })
            } else {
                None
            }
        },
        _ => None,
    }
}

/// Reads the fields of a chunk-info record.
fn read_chunk_info(data: &[u8], f: Frame) -> (r: Option<Record>)
    requires
        f.header.within(data@.len() as int),
        f.data.start <= f.data.end,
    ensures
        r == chunk_info_of(data@, f),
{
    let ver = get_u32(data, f.header, "ver".as_bytes());
    let chunk_pos = get_u64(data, f.header, "chunk_pos".as_bytes());
    let start_time = get_time(data, f.header, "start_time".as_bytes());
    let end_time = get_time(data, f.header, "end_time".as_bytes());
    let count = get_u32(data, f.header, "count".as_bytes());
    match (ver, chunk_pos, start_time, end_time, count) {
        (Some(ver), Some(chunk_pos), Some(start_time), Some(end_time), Some(count)) => {
            let width: u64 = (f.data.end - f.data.start) as u64;
            if ver == INDEX_VERSION && width == 8 * (count as u64) {
                Some(Record::ChunkInfo { chunk_pos, start_time, end_time, count, data: f.data })
            } else {
                None
            }
        },
        _ => None,
    }
}

/// Decodes the record at `pos`. Fails with `MalformedRecord` exactly when
/// [`record_at`] has no record there.
pub fn parse_record(data: &[u8], pos: usize) -> (r: Result<Parsed, Error>)
    ensures
        match r {
            Ok(p) => record_at(data@, pos as int) == Some(p) && pos + 8 <= p.next <= data@.len(),
            Err(e) => e@ == crate::errors::Fault::MalformedRecord && record_at(data@, pos as int)
                is None,
        },
{
    reveal(typed_record);
    let f: Frame = match read_frame(data, pos) {
        Some(f) => f,
        None => {
            return Err(Error::MalformedRecord);
        },
    };
    if !header_ok(data, f.header) {
        return Err(Error::MalformedRecord);
    }
    let op: u8 = match get_u8(data, f.header, "op".as_bytes()) {
        Some(op) => op,
        None => {
            return Err(Error::MalformedRecord);
        },
    };
    let record: Option<Record> = if op == OP_MESSAGE {
        read_message(data, f)
    } else if op == OP_BAG_HEADER {
        read_bag_header(data, f)
    } else if op == OP_INDEX {
        read_index(data, f)
    } else if op == OP_CHUNK {
        read_chunk(data, f)
    } else if op == OP_CHUNK_INFO {
        read_chunk_info(data, f)
    } else if op == OP_CONNECTION {
        read_connection(data, f)
    } else {
        None
    };
    match record {
        Some(record) => Ok(Parsed { record, next: f.data.end }),
        None => Err(Error::MalformedRecord),
    }
}

/// The value of a field lies inside the header it was found in.
pub proof fn lemma_field_within(s: Seq<u8>, start: int, end: int, name: Seq<u8>)
    requires
        0 <= start <= end <= usize::MAX,
    ensures
        match field(s, start, end, name) {
            Some(v) => start < v.start <= v.end <= end,
            None => true,
        },
    decreases end - start,
{
    if start + 4 <= end {
        let field_end = start + 4 + u32_at(s, start);
        if field_end <= end {
            lemma_find_eq_bounds(s, start + 4, field_end);
            let eq = find_eq(s, start + 4, field_end);
            if !(eq < field_end && s.subrange(start + 4, eq) == name) {
                lemma_field_within(s, field_end, end, name);
            }
        }
    }
}

/// The first `=` of a range, or its end, lies in the range.
pub proof fn lemma_find_eq_bounds(s: Seq<u8>, start: int, end: int)
    requires
        start <= end,
    ensures
        start <= find_eq(s, start, end) <= end,
    decreases end - start,
{
    if start < end && s[start] != 61u8 {
        lemma_find_eq_bounds(s, start + 1, end);
    }
}

} // verus!
