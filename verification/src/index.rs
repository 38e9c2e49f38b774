//! The index records that follow a chunk: for each connection, the times of
//! its messages in the chunk and where in the chunk's content they start.

use crate::bytes::{read_u32, u32_at};
use crate::catalog::{
    connection_views, find_connection, lemma_record_spans, topic_of, Chunk, ChunkView,
    Connection, ConnectionView,
};
use crate::message::{Message, MessageView};
use crate::record::{parse_record, record_at, Parsed, Record, Span};
use crate::time::Time;
use vstd::prelude::*;
use vstd::slice::slice_subrange;

verus! {

/// Where one message lies: its connection, its time, and the offset of its
/// record in the decompressed chunk.
#[derive(Clone, Copy, Debug, PartialEq, Eq, Structural)]
pub struct IndexEntry {
    pub conn: u32,
    pub time: Time,
    pub offset: u32,
}

/// Entry `k` of the index data that starts at `start`: seconds,
/// nanoseconds and offset, four bytes each.
pub open spec fn entry_in(s: Seq<u8>, start: int, conn: u32, k: int) -> IndexEntry {
    IndexEntry {
        conn,
        time: Time {
            secs: u32_at(s, start + 12 * k) as u32,
            nsecs: u32_at(s, start + 12 * k + 4) as u32,
        },
        offset: u32_at(s, start + 12 * k + 8) as u32,
    }
}

/// The `n` entries of the index data that starts at `start`.
pub open spec fn entries_at(s: Seq<u8>, start: int, conn: u32, n: int) -> Seq<IndexEntry> {
    Seq::new(n as nat, |k: int| entry_in(s, start, conn, k))
}

/// The entries of the index records from `pos` on, behind `acc`, up to the
/// first record of another kind or the end of `s`. `None` when a record is
/// malformed.
pub open spec fn index_entries_from(s: Seq<u8>, pos: int, acc: Seq<IndexEntry>) -> Option<
    Seq<IndexEntry>,
>
    decreases s.len() - pos,
{
    if pos >= s.len() {
        Some(acc)
    } else {
        match record_at(s, pos) {
            None => None,
            Some(p) => if p.next <= pos {
                None
            } else {
                match p.record {
                    Record::IndexData { conn, count, data } => index_entries_from(
                        s,
                        p.next as int,
                        acc + entries_at(s, data.start as int, conn, count as int),
                    ),
                    _ => Some(acc),
                }
            },
        }
    }
}

/// The index of a chunk: the entries of the index records that follow it.
pub open spec fn chunk_index(s: Seq<u8>, chunk: ChunkView) -> Option<Seq<IndexEntry>> {
    index_entries_from(s, chunk.data.end as int, Seq::empty())
}

/// Appends the entries of one index record to `out`.
pub fn read_entries(data: &[u8], span: Span, conn: u32, n: u32, out: &mut Vec<IndexEntry>)
    requires
        span.within(data@.len() as int),
        span.end - span.start == 12 * n,
    ensures
        final(out)@ == old(out)@ + entries_at(data@, span.start as int, conn, n as int),
{
    let mut i: u32 = 0;
    while i < n
        invariant
            span.within(data@.len() as int),
            span.end - span.start == 12 * n,
            0 <= i <= n,
            out@.len() == old(out)@.len() + i,
            forall|k: int| 0 <= k < old(out)@.len() ==> out@[k] == old(out)@[k],
            forall|k: int|
                0 <= k < i ==> out@[old(out)@.len() + k] == entry_in(
                    data@,
                    span.start as int,
                    conn,
                    k,
                ),
        decreases n - i,
    {
        let at: usize = span.start + 12 * (i as usize);
        match (read_u32(data, at), read_u32(data, at + 4), read_u32(data, at + 8)) {
            (Some(secs), Some(nsecs), Some(offset)) => {
                out.push(IndexEntry { conn, time: Time { secs, nsecs }, offset });
            },
            _ => {
                assert(false);
            },
        }
        i += 1;
    }
    assert(out@ =~= old(out)@ + entries_at(data@, span.start as int, conn, n as int));
}

/// Reads the index of a chunk.
pub fn read_chunk_index(data: &[u8], chunk: &Chunk) -> (r: Option<Vec<IndexEntry>>)
    ensures
        match r {
            Some(entries) => chunk_index(data@, chunk@) == Some(entries@),
            None => chunk_index(data@, chunk@) is None,
        },
{
    let len: usize = data.len();
    let mut out: Vec<IndexEntry> = Vec::new();
    let mut pos: usize = chunk.data.end;
    while pos < len
        invariant
            len == data@.len(),
            chunk_index(data@, chunk@) == index_entries_from(data@, pos as int, out@),
        decreases len - pos,
    {
        let p: Parsed = match parse_record(data, pos) {
            Ok(p) => p,
            Err(_) => {
                return None;
            },
        };
        proof {
            lemma_record_spans(data@, pos as int);
        }
        match p.record {
            Record::IndexData { conn, count, data: span } => {
                read_entries(data, span, conn, count, &mut out);
            },
            _ => {
                return Some(out);
            },
        }
        pos = p.next;
    }
    Some(out)
}

/// The message whose record starts at `offset` of chunk content `c`; `None`
/// when there is no message record there, or none of a known connection.
pub open spec fn message_at(c: Seq<u8>, offset: int, conns: Seq<ConnectionView>) -> Option<
    Message,
> {
    match record_at(c, offset) {
        Some(p) => match p.record {
            Record::MessageData { conn, time, data } => match topic_of(conns, conn) {
                Some(topic) => Some(Message { conn, topic, time, data: data.of(c) }),
                None => None,
            },
            _ => None,
        },
        None => None,
    }
}

/// Reads the message whose record starts at `offset` of a chunk's content.
pub fn read_message_at<'a>(content: &'a [u8], offset: usize, conns: &'a Vec<Connection>) -> (r:
    Option<MessageView<'a>>)
    ensures
        match r {
            Some(m) => message_at(content@, offset as int, connection_views(conns@)) == Some(m@),
            None => message_at(content@, offset as int, connection_views(conns@)) is None,
        },
{
    if offset >= content.len() {
        return None;
    }
    match parse_record(content, offset) {
        Ok(p) => {
            proof {
                lemma_record_spans(content@, offset as int);
            }
            match p.record {
                Record::MessageData { conn, time, data } => match find_connection(conns, conn) {
                    Some(at) => Some(
                        MessageView {
                            conn,
                            topic: conns[at].topic.as_str(),
                            time,
                            data: slice_subrange(content, data.start, data.end),
                        },
                    ),
                    None => None,
                },
                _ => None,
            }
        },
        Err(_) => None,
    }
}

} // verus!
