//! Messages, and the search for the next wanted message among the records of
//! a chunk.

use crate::catalog::{
    connection_views, find_connection, lemma_record_spans, topic_of, Connection, ConnectionView,
};
use crate::errors::{Error, Fault};
use crate::query::{Query, QueryView};
use crate::record::{parse_record, record_at, Parsed, Record, Span};
use crate::time::Time;
use vstd::prelude::*;

verus! {

/// One message of a recording: the connection it came on, that connection's
/// topic, its time and its payload.
pub struct Message {
    pub conn: u32,
    pub topic: Seq<char>,
    pub time: Time,
    pub data: Seq<u8>,
}

/// A message seen in place: its topic is borrowed from the connection, its
/// payload from the buffer that holds the decompressed chunk.
#[derive(Debug, Clone, Copy)]
pub struct MessageView<'a> {
    pub conn: u32,
    pub topic: &'a str,
    pub time: Time,
    pub data: &'a [u8],
}

impl<'a> View for MessageView<'a> {
    type V = Message;

    open spec fn view(&self) -> Message {
        Message { conn: self.conn, topic: self.topic@, time: self.time, data: self.data@ }
    }
}

impl<'a> MessageView<'a> {
    /// The number of bytes in the payload.
    pub fn size(&self) -> (r: u64)
        ensures
            r == self@.data.len(),
    {
        self.data.len() as u64
    }
}

/// A run of messages, cut short by a fault or not.
pub struct Yield {
    pub msgs: Seq<Message>,
    pub fault: Option<Fault>,
}

impl Yield {
    /// No message and no fault.
    pub open spec fn done() -> Yield {
        Yield { msgs: Seq::empty(), fault: None }
    }

    /// No message before fault `f`.
    pub open spec fn failed(f: Fault) -> Yield {
        Yield { msgs: Seq::empty(), fault: Some(f) }
    }

    /// This run with message `m` before it.
    pub open spec fn after(self, m: Message) -> Yield {
        Yield { msgs: seq![m] + self.msgs, fault: self.fault }
    }

    /// This run, and `next` behind it unless this run is cut short.
    pub open spec fn then_run(self, next: Yield) -> Yield {
        if self.fault is Some {
            self
        } else {
            Yield { msgs: self.msgs + next.msgs, fault: next.fault }
        }
    }
}

/// The messages that chunk content `c` holds from `pos` on and that meet
/// `q`, in stored order. A message names its connection by number; `conns`
/// gives the topic. The run is cut short with `MalformedRecord` at a record
/// that is malformed, that is neither a message nor a connection record, or
/// that is a message on a connection that `conns` does not know.
pub open spec fn yield_from(c: Seq<u8>, pos: int, conns: Seq<ConnectionView>, q: QueryView) -> Yield
    decreases c.len() - pos,
{
    if pos >= c.len() {
        Yield::done()
    } else {
        match record_at(c, pos) {
            None => Yield::failed(Fault::MalformedRecord),
            Some(p) => if p.next <= pos {
                Yield::failed(Fault::MalformedRecord)
            } else {
                match p.record {
                    Record::MessageData { conn, time, data } => match topic_of(conns, conn) {
                        None => Yield::failed(Fault::MalformedRecord),
                        Some(topic) => if q.matches(topic, time) {
                            yield_from(c, p.next as int, conns, q).after(
                                Message { conn, topic, time, data: data.of(c) },
                            )
                        } else {
                            yield_from(c, p.next as int, conns, q)
                        },
                    },
                    Record::Connection { .. } => yield_from(c, p.next as int, conns, q),
                    _ => Yield::failed(Fault::MalformedRecord),
                }
            },
        }
    }
}

/// Where a wanted message lies in a chunk's content.
#[derive(Debug, Clone, Copy)]
pub struct Found {
    /// The number of the message's connection.
    pub conn: u32,
    /// The place of that connection in the catalog.
    pub index: usize,
    /// The time of the message.
    pub time: Time,
    /// The place of the payload.
    pub data: Span,
    /// The position of the record after the message.
    pub next: usize,
}

impl Found {
    /// The message found, given the content and the connections it was
    /// found with.
    pub open spec fn message(self, c: Seq<u8>, conns: Seq<ConnectionView>) -> Message {
        Message {
            conn: self.conn,
            topic: conns[self.index as int].topic,
            time: self.time,
            data: self.data.of(c),
        }
    }
}

/// Finds the first message at or after `pos` that meets `q`.
pub fn next_message(content: &[u8], pos: usize, conns: &Vec<Connection>, q: &Query) -> (r: Result<
    Option<Found>,
    Error,
>)
    ensures
        match r {
            Ok(Some(f)) => {
                &&& f.index < conns@.len()
                &&& f.data.within(content@.len() as int)
                &&& pos < f.next <= content@.len()
                &&& yield_from(content@, pos as int, connection_views(conns@), q@) == yield_from(
                    content@,
                    f.next as int,
                    connection_views(conns@),
                    q@,
                ).after(f.message(content@, connection_views(conns@)))
            },
            Ok(None) => yield_from(content@, pos as int, connection_views(conns@), q@)
                == Yield::done(),
            Err(e) => yield_from(content@, pos as int, connection_views(conns@), q@)
                == Yield::failed(e@),
        },
{
    let len: usize = content.len();
    let mut cur: usize = pos;
    while cur < len
        invariant
            len == content@.len(),
            pos <= cur,
            yield_from(content@, pos as int, connection_views(conns@), q@) == yield_from(
                content@,
                cur as int,
                connection_views(conns@),
                q@,
            ),
        decreases len - cur,
    {
        let p: Parsed = match parse_record(content, cur) {
            Ok(p) => p,
            Err(e) => {
                return Err(e);
            },
        };
        proof {
            lemma_record_spans(content@, cur as int);
        }
        match p.record {
            Record::MessageData { conn, time, data } => {
                match find_connection(conns, conn) {
                    None => {
                        return Err(Error::MalformedRecord);
                    },
                    Some(index) => {
                        if q.matches(&conns[index].topic, &time) {
                            return Ok(Some(Found { conn, index, time, data, next: p.next }));
                        }
                    },
                }
            },
            Record::Connection { .. } => {},
            _ => {
                return Err(Error::MalformedRecord);
            },
        }
        cur = p.next;
    }
    Ok(None)
}

} // verus!
