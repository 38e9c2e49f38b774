//! Queries: which messages of a recording are wanted, by topic and by time.

use crate::catalog::{
    connection_views, find_connection, topic_of, ChunkInfo, ChunkInfoView, Connection,
    ConnectionView,
};
use crate::time::Time;
use vstd::prelude::*;

verus! {

/// The topics that a list of names stands for.
pub open spec fn topic_set(names: Seq<String>) -> Set<Seq<char>> {
    Set::new(|t: Seq<char>| exists|i: int| 0 <= i < names.len() && (#[trigger] names[i])@ == t)
}

/// A filter on messages: an optional set of topics and an optional range of
/// time, both of which a message has to meet. A query is never changed once
/// it is built.
#[derive(Debug, Clone, PartialEq, Eq)]
pub struct Query {
    topics: Option<Vec<String>>,
    range: Option<(Time, Time)>,
}

/// The mathematical counterpart of [`Query`]. No topic set means every
/// topic, while an empty one means none; no range means all of time. A range
/// holds both of its ends.
pub struct QueryView {
    pub topics: Option<Set<Seq<char>>>,
    pub range: Option<(Time, Time)>,
}

/// Whether a message of connection `entry.0` is on one of `topics`.
pub open spec fn carries(entry: (u32, u32), conns: Seq<ConnectionView>, topics: Set<Seq<char>>) -> bool {
    match topic_of(conns, entry.0) {
        Some(t) => topics.contains(t),
        None => false,
    }
}

impl QueryView {
    /// The query that every message meets.
    pub open spec fn all() -> QueryView {
        QueryView { topics: None, range: None }
    }

    /// Whether `time` is in the query's range.
    pub open spec fn in_range(self, time: Time) -> bool {
        match self.range {
            Some((start, end)) => start.nanos() <= time.nanos() <= end.nanos(),
            None => true,
        }
    }

    /// Whether `topic` is one of the query's topics.
    pub open spec fn on_topic(self, topic: Seq<char>) -> bool {
        match self.topics {
            Some(topics) => topics.contains(topic),
            None => true,
        }
    }

    /// Whether a message on `topic` at `time` meets the query.
    pub open spec fn matches(self, topic: Seq<char>, time: Time) -> bool {
        self.on_topic(topic) && self.in_range(time)
    }

    /// Whether a chunk may hold a message that meets the query, going by
    /// what the index says of it: its time range meets the query's, and it
    /// lists a connection on one of the query's topics.
    pub open spec fn selects(self, info: ChunkInfoView, conns: Seq<ConnectionView>) -> bool {
        &&& match self.range {
            Some((start, end)) => start.nanos() <= info.end_time.nanos()
                && info.start_time.nanos() <= end.nanos(),
            None => true,
        }
        &&& match self.topics {
            Some(topics) => exists|k: int|
                0 <= k < info.counts.len() && carries(#[trigger] info.counts[k], conns, topics),
            None => true,
        }
    }
}

impl View for Query {
    type V = QueryView;

    closed spec fn view(&self) -> QueryView {
        QueryView {
            topics: match self.topics {
                Some(names) => Some(topic_set(names@)),
                None => None,
            },
            range: self.range,
        }
    }
}

/// Whether `topic` is among `names`.
pub fn has_topic(names: &Vec<String>, topic: &String) -> (r: bool)
    ensures
        r == topic_set(names@).contains(topic@),
{
    let mut i: usize = 0;
    while i < names.len()
        invariant
            0 <= i <= names@.len(),
            forall|k: int| 0 <= k < i ==> (#[trigger] names@[k])@ != topic@,
        decreases names@.len() - i,
    {
        if names[i] == *topic {
            return true;
        }
        i += 1;
    }
    false
}

impl Query {
    /// The query that every message meets.
    pub fn all() -> (r: Query)
        ensures
            r@ == QueryView::all(),
    {
        Query { topics: None, range: None }
    }

    /// The query for the messages on one of `topics`. With no topic at all
    /// it is met by no message.
    pub fn by_topic(topics: Vec<String>) -> (r: Query)
        ensures
            r@ == (QueryView { topics: Some(topic_set(topics@)), range: None }),
    {
        Query { topics: Some(topics), range: None }
    }

    /// The query for the messages from `start` to `end`, both included.
    pub fn by_time(start: Time, end: Time) -> (r: Query)
        ensures
            r@ == (QueryView { topics: None, range: Some((start, end)) }),
    {
        Query { topics: None, range: Some((start, end)) }
    }

    /// This query, narrowed to the messages on one of `topics`.
    pub fn with_topics(self, topics: Vec<String>) -> (r: Query)
        ensures
            r@ == (QueryView { topics: Some(topic_set(topics@)), range: self@.range }),
    {
        Query { topics: Some(topics), range: self.range }
    }

    /// This query, narrowed to the messages from `start` to `end`, both
    /// included.
    pub fn with_time(self, start: Time, end: Time) -> (r: Query)
        ensures
            r@ == (QueryView { topics: self@.topics, range: Some((start, end)) }),
    {
        Query { topics: self.topics, range: Some((start, end)) }
    }

    /// Whether a message on `topic` at `time` meets the query.
    pub fn matches(&self, topic: &String, time: &Time) -> (r: bool)
        ensures
            r == self@.matches(topic@, *time),
    {
        let on_topic: bool = match &self.topics {
            Some(names) => has_topic(names, topic),
            None => true,
        };
        let in_range: bool = match self.range {
            Some((start, end)) => start.le(time) && time.le(&end),
            None => true,
        };
        on_topic && in_range
    }

    /// Whether a chunk may hold a message that meets the query, going by
    /// what the index says of it.
    pub fn selects(&self, info: &ChunkInfo, conns: &Vec<Connection>) -> (r: bool)
        ensures
            r == self@.selects(info@, connection_views(conns@)),
    {
        let in_range: bool = match self.range {
            Some((start, end)) => start.le(&info.end_time) && info.start_time.le(&end),
            None => true,
        };
        if !in_range {
            return false;
        }
        match &self.topics {
            None => true,
            Some(names) => lists_topic(info, conns, names),
        }
    }
}

/// Whether `info` lists a connection on one of the topics `names`.
pub fn lists_topic(info: &ChunkInfo, conns: &Vec<Connection>, names: &Vec<String>) -> (r: bool)
    ensures
        r == exists|k: int|
            0 <= k < info@.counts.len() && carries(
                #[trigger] info@.counts[k],
                connection_views(conns@),
                topic_set(names@),
            ),
{
    let mut k: usize = 0;
    while k < info.counts.len()
        invariant
            0 <= k <= info.counts@.len(),
            forall|j: int|
                0 <= j < k ==> !carries(
                    #[trigger] info.counts@[j],
                    connection_views(conns@),
                    topic_set(names@),
                ),
        decreases info.counts@.len() - k,
    {
        let found: bool = match find_connection(conns, info.counts[k].0) {
            Some(i) => has_topic(names, &conns[i].topic),
            None => false,
        };
        if found {
            assert(carries(info@.counts[k as int], connection_views(conns@), topic_set(names@)));
            return true;
        }
        k += 1;
    }
    false
}

} // verus!
