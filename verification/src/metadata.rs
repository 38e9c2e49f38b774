//! The summary of a recording: made once when the recording is opened, and
//! read through accessors afterwards.

use crate::catalog::{
    connection_views, entry_views, Catalog, CatalogView, ChunkEntry, Connection, ConnectionView,
};
use crate::errors::{Error, Fault};
use crate::names::{ascending, sorted_unique, texts, unique};
use crate::scan::{built_catalog, read_catalog, Origin};
use crate::summary::{
    codec_texts, first_on, lemma_codec_bytes_below, lemma_topic_count_below, topic_texts,
    type_texts,
};
use crate::time::{Duration, Time};
use crate::totals::{compression_totals, count_messages, time_bounds, CompressionInfo};
use vstd::prelude::*;

verus! {

/// The catalog of recording `s` and how it is built: from the trailing
/// index, or by a full scan when the index is missing. A recording that does
/// not open with the version line is refused with `InvalidFormat`, and one
/// whose message counts or byte totals do not fit in 64 bits with
/// `MalformedRecord`.
pub open spec fn catalog_of(s: Seq<u8>) -> Result<(CatalogView, Origin), Fault> {
    match built_catalog(s) {
        Ok((cat, origin)) => if cat.sums_fit() {
            Ok((cat, origin))
        } else {
            Err(Fault::MalformedRecord)
        },
        Err(f) => Err(f),
    }
}

/// The names of a list of topics with their message counts.
pub open spec fn counted_topics(list: Seq<(String, u64)>) -> Seq<Seq<char>> {
    Seq::new(list.len(), |i: int| list[i].0@)
}

/// The topics of a list of topics with their message types.
pub open spec fn typed_topics(list: Seq<(String, String)>) -> Seq<Seq<char>> {
    Seq::new(list.len(), |i: int| list[i].0@)
}

/// The codec names of a list of compression statistics.
pub open spec fn codec_names(list: Seq<CompressionInfo>) -> Seq<Seq<char>> {
    Seq::new(list.len(), |i: int| list[i].name@)
}

/// Whether `list` holds each topic of `cat` once, with the number of
/// messages on it.
pub open spec fn lists_topic_counts(list: Seq<(String, u64)>, cat: CatalogView) -> bool {
    &&& counted_topics(list).no_duplicates()
    &&& forall|t: Seq<char>| counted_topics(list).contains(t) <==> cat.topics().contains(t)
    &&& forall|i: int| 0 <= i < list.len() ==> (#[trigger] list[i]).1 == cat.topic_count(list[i].0@)
}

/// Whether `list` holds each topic of `cat` once, with the message type of
/// the first connection on it.
pub open spec fn lists_topic_types(list: Seq<(String, String)>, cat: CatalogView) -> bool {
    &&& typed_topics(list).no_duplicates()
    &&& forall|t: Seq<char>| typed_topics(list).contains(t) <==> cat.topics().contains(t)
    &&& forall|i: int|
        0 <= i < list.len() ==> cat.type_of((#[trigger] list[i]).0@) == Some(list[i].1@)
}

/// Whether `list` holds each codec that a chunk of `cat` names once, with
/// the number of its chunks and their stored and decompressed bytes.
pub open spec fn lists_compression(list: Seq<CompressionInfo>, cat: CatalogView) -> bool {
    &&& codec_names(list).no_duplicates()
    &&& forall|n: Seq<char>| codec_names(list).contains(n) <==> cat.codecs().contains(n)
    &&& forall|i: int|
        0 <= i < list.len() ==> {
            &&& (#[trigger] list[i]).chunk_count == cat.chunks_using(Some(list[i].name@))
            &&& list[i].total_compressed == cat.compressed_bytes(Some(list[i].name@))
            &&& list[i].total_uncompressed == cat.uncompressed_bytes(Some(list[i].name@))
        }
}

/// The topic of each connection.
pub fn collect_topics(conns: &Vec<Connection>) -> (r: Vec<String>)
    ensures
        texts(r@) == topic_texts(connection_views(conns@)),
{
    let mut out: Vec<String> = Vec::new();
    let mut i: usize = 0;
    while i < conns.len()
        invariant
            0 <= i <= conns@.len(),
            out@.len() == i,
            forall|k: int| 0 <= k < i ==> (#[trigger] out@[k])@ == conns@[k].topic@,
        decreases conns@.len() - i,
    {
        out.push(conns[i].topic.clone());
        i += 1;
    }
    assert(texts(out@) =~= topic_texts(connection_views(conns@)));
    out
}

/// The message type of each connection.
pub fn collect_types(conns: &Vec<Connection>) -> (r: Vec<String>)
    ensures
        texts(r@) == type_texts(connection_views(conns@)),
{
    let mut out: Vec<String> = Vec::new();
    let mut i: usize = 0;
    while i < conns.len()
        invariant
            0 <= i <= conns@.len(),
            out@.len() == i,
            forall|k: int| 0 <= k < i ==> (#[trigger] out@[k])@ == conns@[k].data_type@,
        decreases conns@.len() - i,
    {
        out.push(conns[i].data_type.clone());
        i += 1;
    }
    assert(texts(out@) =~= type_texts(connection_views(conns@)));
    out
}

/// The codec name of each chunk.
pub fn collect_codecs(chunks: &Vec<ChunkEntry>) -> (r: Vec<String>)
    ensures
        texts(r@) == codec_texts(entry_views(chunks@)),
{
    let mut out: Vec<String> = Vec::new();
    let mut i: usize = 0;
    while i < chunks.len()
        invariant
            0 <= i <= chunks@.len(),
            out@.len() == i,
            forall|k: int| 0 <= k < i ==> (#[trigger] out@[k])@ == chunks@[k].chunk.compression@,
        decreases chunks@.len() - i,
    {
        out.push(chunks[i].chunk.compression.clone());
        i += 1;
    }
    assert(texts(out@) =~= codec_texts(entry_views(chunks@)));
    out
}

/// The number of messages on each topic.
pub fn count_by_topic(catalog: &Catalog) -> (r: Vec<(String, u64)>)
    requires
        catalog@.message_count() <= u64::MAX,
    ensures
        lists_topic_counts(r@, catalog@),
{
    let all: Vec<String> = collect_topics(&catalog.connections);
    let names: Vec<String> = unique(&all);
    let mut out: Vec<(String, u64)> = Vec::new();
    let mut i: usize = 0;
    while i < names.len()
        invariant
            0 <= i <= names@.len(),
            catalog@.message_count() <= u64::MAX,
            out@.len() == i,
            forall|k: int|
                0 <= k < i ==> (#[trigger] out@[k]).0@ == names@[k]@ && out@[k].1
                    == catalog@.topic_count(names@[k]@),
        decreases names@.len() - i,
    {
        proof {
            lemma_topic_count_below(catalog@, names@[i as int]@);
        }
        // The count of all messages fits, so the count of one topic does.
        let n: u64 = match count_messages(catalog, Some(&names[i])) {
            Some(n) => n,
            None => 0,
        };
        out.push((names[i].clone(), n));
        i += 1;
    }
    assert(counted_topics(out@) =~= texts(names@));
    out
}

/// The compression statistics of each codec that a chunk names.
pub fn list_compression(catalog: &Catalog) -> (r: Vec<CompressionInfo>)
    requires
        catalog@.compressed_bytes(None) <= u64::MAX,
        catalog@.uncompressed_bytes(None) <= u64::MAX,
    ensures
        lists_compression(r@, catalog@),
{
    let all: Vec<String> = collect_codecs(&catalog.chunks);
    let names: Vec<String> = unique(&all);
    let mut out: Vec<CompressionInfo> = Vec::new();
    let mut i: usize = 0;
    while i < names.len()
        invariant
            0 <= i <= names@.len(),
            catalog@.compressed_bytes(None) <= u64::MAX,
            catalog@.uncompressed_bytes(None) <= u64::MAX,
            out@.len() == i,
            forall|k: int|
                0 <= k < i ==> {
                    &&& (#[trigger] out@[k]).name@ == names@[k]@
                    &&& out@[k].chunk_count == catalog@.chunks_using(Some(names@[k]@))
                    &&& out@[k].total_compressed == catalog@.compressed_bytes(Some(names@[k]@))
                    &&& out@[k].total_uncompressed == catalog@.uncompressed_bytes(
                        Some(names@[k]@),
                    )
                },
        decreases names@.len() - i,
    {
        proof {
            lemma_codec_bytes_below(catalog@, names@[i as int]@);
        }
        // The totals of all chunks fit, so the totals of one codec do.
        let (chunk_count, total_compressed, total_uncompressed) = match compression_totals(
            &catalog.chunks,
            Some(&names[i]),
        ) {
            Some(totals) => totals,
            None => (0, 0, 0),
        };
        out.push(
            CompressionInfo {
                name: names[i].clone(),
                chunk_count,
                total_compressed,
                total_uncompressed,
            },
        );
        i += 1;
    }
    assert(codec_names(out@) =~= texts(names@));
    out
}

/// Finds the first connection on `topic`.
pub fn find_topic(conns: &Vec<Connection>, topic: &String) -> (r: Option<usize>)
    ensures
        match r {
            Some(i) => first_on(connection_views(conns@), topic@, 0) == Some(i as int) && i
                < conns@.len(),
            None => first_on(connection_views(conns@), topic@, 0) is None,
        },
{
    let mut i: usize = 0;
    while i < conns.len()
        invariant
            0 <= i <= conns@.len(),
            first_on(connection_views(conns@), topic@, 0) == first_on(
                connection_views(conns@),
                topic@,
                i as int,
            ),
        decreases conns@.len() - i,
    {
        if conns[i].topic == *topic {
            return Some(i);
        }
        i += 1;
    }
    None
}

/// A topic that a connection is on is found by a search from any place
/// before that connection.
pub proof fn lemma_first_on_finds(conns: Seq<ConnectionView>, topic: Seq<char>, from: int, at: int)
    requires
        0 <= from <= at < conns.len(),
        conns[at].topic == topic,
    ensures
        first_on(conns, topic, from) is Some,
    decreases at - from,
{
    if conns[from].topic != topic {
        lemma_first_on_finds(conns, topic, from + 1, at);
    }
}

/// No message is counted on a topic that no connection is on.
pub proof fn lemma_no_topic_no_messages(cat: CatalogView, topic: Seq<char>)
    requires
        !cat.topics().contains(topic),
    ensures
        cat.topic_count(topic) == 0,
{
    let want = crate::summary::wanted(cat.connections, Some(topic));
    assert forall|c: u32| !(#[trigger] want(c)) by {
        crate::catalog::lemma_position(cat.connections, c, 0);
        match crate::catalog::position(cat.connections, c, 0) {
            Some(i) => {
                assert(topic_texts(cat.connections)[i] == cat.connections[i].topic);
            },
            None => {},
        }
    }
    let term = crate::summary::chunk_term(cat.chunks, want);
    assert forall|i: int| 0 <= i < cat.chunks.len() implies #[trigger] term(i) == 0 by {
        let counts = cat.chunks[i].info.counts;
        let inner = crate::summary::count_term(counts, want);
        assert forall|k: int| 0 <= k < counts.len() implies #[trigger] inner(k) == 0 by {
            assert(!want(counts[k].0));
        }
        crate::counting::lemma_sum_zero(inner, counts.len() as int);
    }
    crate::counting::lemma_sum_zero(term, cat.chunks.len() as int);
}

/// The summary of a recording: where it came from, its format version, its
/// size, its catalog, and the totals of the catalog.
#[derive(Debug, PartialEq, Eq)]
pub struct BagMetadata {
    pub(crate) file_path: Option<String>,
    pub(crate) version: String,
    pub(crate) num_bytes: u64,
    pub(crate) catalog: Catalog,
    pub(crate) origin: Origin,
    pub(crate) message_count: u64,
    pub(crate) bounds: Option<(Time, Time)>,
    pub(crate) topic_counts: Vec<(String, u64)>,
    pub(crate) compression: Vec<CompressionInfo>,
}

impl BagMetadata {
    #[verifier::type_invariant]
    pub closed spec fn inv(self) -> bool {
        &&& self.message_count == self.catalog@.message_count()
        &&& match self.bounds {
            Some((first, last)) => self.catalog@.start_time() == Some(first)
                && self.catalog@.end_time() == Some(last),
            None => self.catalog@.chunks.len() == 0,
        }
        &&& lists_topic_counts(self.topic_counts@, self.catalog@)
        &&& lists_compression(self.compression@, self.catalog@)
        &&& self.version@ == "2.0"@
    }

    /// The file the recording was read from, if it was read from one.
    pub open(crate) spec fn path(&self) -> Option<Seq<char>> {
        match self.file_path {
            Some(path) => Some(path@),
            None => None,
        }
    }

    /// The catalog of the recording.
    pub open(crate) spec fn catalog(&self) -> CatalogView {
        self.catalog@
    }

    /// How the catalog was built.
    pub open(crate) spec fn origin(&self) -> Origin {
        self.origin
    }

    /// The summary is that of recording `s`.
    pub open(crate) spec fn describes(&self, s: Seq<u8>) -> bool {
        &&& catalog_of(s) == Ok::<(CatalogView, Origin), Fault>((self.catalog@, self.origin))
        &&& self.catalog@.wf(s)
        &&& self.num_bytes == s.len()
    }

    /// Reads the summary of a recording held in memory. Fails exactly when
    /// the recording has no catalog, with the fault that `catalog_of` gives.
    pub fn from_bytes(data: &[u8]) -> (r: Result<BagMetadata, Error>)
        ensures
            match r {
                Ok(m) => m.describes(data@) && m.path() is None && catalog_of(data@) == Ok::<
                    (CatalogView, Origin),
                    Fault,
                >((m.catalog(), m.origin())),
                Err(e) => catalog_of(data@) == Err::<(CatalogView, Origin), Fault>(e@),
            },
    {
        let (catalog, origin) = match read_catalog(data) {
            Ok(found) => found,
            Err(e) => {
                return Err(e);
            },
        };
        let message_count: u64 = match count_messages(&catalog, None) {
            Some(n) => n,
            None => {
                return Err(Error::MalformedRecord);
            },
        };
        match compression_totals(&catalog.chunks, None) {
            Some(_) => {},
            None => {
                return Err(Error::MalformedRecord);
            },
        }
        let bounds: Option<(Time, Time)> = time_bounds(&catalog.chunks);
        let topic_counts: Vec<(String, u64)> = count_by_topic(&catalog);
        let compression: Vec<CompressionInfo> = list_compression(&catalog);
        Ok(
            BagMetadata {
                file_path: None,
                version: "2.0".to_owned(),
                num_bytes: data.len() as u64,
                catalog,
                origin,
                message_count,
                bounds,
                topic_counts,
                compression,
            },
        )
    }

    /// The summary, with the file it was read from.
    pub fn with_file_path(self, path: String) -> (r: BagMetadata)
        ensures
            r.path() == Some(path@),
            r.catalog() == self.catalog(),
            r.origin() == self.origin(),
            forall|s: Seq<u8>| self.describes(s) ==> r.describes(s),
    {
        proof {
            use_type_invariant(&self);
        }
        BagMetadata {
            file_path: Some(path),
            version: self.version,
            num_bytes: self.num_bytes,
            catalog: self.catalog,
            origin: self.origin,
            message_count: self.message_count,
            bounds: self.bounds,
            topic_counts: self.topic_counts,
            compression: self.compression,
        }
    }

    /// The file the recording was read from; `None` for one held in memory.
    pub fn file_path(&self) -> (r: Option<&String>)
        ensures
            match r {
                Some(path) => self.path() == Some(path@),
                None => self.path() is None,
            },
    {
        match &self.file_path {
            Some(path) => Some(path),
            None => None,
        }
    }

    /// The version of the format.
    pub fn version(&self) -> (r: &String)
        ensures
            r@ == "2.0"@,
    {
        proof {
            use_type_invariant(self);
        }
        &self.version
    }

    /// The number of bytes in the recording.
    pub fn num_bytes(&self) -> (r: u64)
        ensures
            forall|s: Seq<u8>| self.describes(s) ==> r == s.len(),
    {
        self.num_bytes
    }

    /// The connections of the recording, each number once.
    pub fn connection_data(&self) -> (r: &Vec<Connection>)
        ensures
            connection_views(r@) == self.catalog().connections,
    {
        &self.catalog.connections
    }

    /// The chunks of the recording, in file order.
    pub fn chunks(&self) -> (r: &Vec<ChunkEntry>)
        ensures
            entry_views(r@) == self.catalog().chunks,
    {
        &self.catalog.chunks
    }

    /// How the catalog was built.
    pub fn built_from(&self) -> (r: Origin)
        ensures
            r == self.origin(),
    {
        self.origin
    }

    /// The number of messages: the sum of the counts of all chunks.
    pub fn message_count(&self) -> (r: u64)
        ensures
            r == self.catalog().message_count(),
    {
        proof {
            use_type_invariant(self);
        }
        self.message_count
    }

    /// Each topic once, with the number of messages on it, whichever
    /// connections carry it.
    pub fn topic_message_counts(&self) -> (r: &Vec<(String, u64)>)
        ensures
            lists_topic_counts(r@, self.catalog()),
    {
        proof {
            use_type_invariant(self);
        }
        &self.topic_counts
    }

    /// The number of messages on `topic`; zero for a topic that the
    /// recording does not have.
    pub fn topic_message_count(&self, topic: &String) -> (r: u64)
        ensures
            r == self.catalog().topic_count(topic@),
    {
        proof {
            use_type_invariant(self);
        }
        let mut i: usize = 0;
        while i < self.topic_counts.len()
            invariant
                0 <= i <= self.topic_counts@.len(),
                lists_topic_counts(self.topic_counts@, self.catalog@),
                forall|k: int| 0 <= k < i ==> counted_topics(self.topic_counts@)[k] != topic@,
            decreases self.topic_counts@.len() - i,
        {
            if self.topic_counts[i].0 == *topic {
                return self.topic_counts[i].1;
            }
            i += 1;
        }
        proof {
            assert(!counted_topics(self.topic_counts@).contains(topic@));
            lemma_no_topic_no_messages(self.catalog@, topic@);
        }
        0
    }

    /// One entry for each codec that a chunk names.
    pub fn compression_info(&self) -> (r: &Vec<CompressionInfo>)
        ensures
            lists_compression(r@, self.catalog()),
    {
        proof {
            use_type_invariant(self);
        }
        &self.compression
    }

    /// The earliest start among the chunks' time ranges; `None` without
    /// chunks.
    pub fn start_time(&self) -> (r: Option<Time>)
        ensures
            r == self.catalog().start_time(),
    {
        proof {
            use_type_invariant(self);
        }
        match self.bounds {
            Some((first, _)) => Some(first),
            None => None,
        }
    }

    /// The latest end among the chunks' time ranges; `None` without chunks.
    pub fn end_time(&self) -> (r: Option<Time>)
        ensures
            r == self.catalog().end_time(),
    {
        proof {
            use_type_invariant(self);
        }
        match self.bounds {
            Some((_, last)) => Some(last),
            None => None,
        }
    }

    /// The span from the start time to the end time; `None` without chunks.
    pub fn duration(&self) -> (r: Option<Duration>)
        ensures
            match (self.catalog().start_time(), self.catalog().end_time()) {
                (Some(first), Some(last)) => if first.nanos() <= last.nanos() {
                    r is Some && r->0.wf() && r->0.nanos() == last.nanos() - first.nanos()
                } else {
                    r is None
                },
                _ => r is None,
            },
    {
        proof {
            use_type_invariant(self);
        }
        match self.bounds {
            Some((first, last)) => last.since(&first),
            None => None,
        }
    }

    /// The topics of the recording, each once, in ascending order.
    pub fn topics(&self) -> (r: Vec<String>)
        ensures
            texts(r@).no_duplicates(),
            ascending(texts(r@)),
            forall|t: Seq<char>| texts(r@).contains(t) <==> self.catalog().topics().contains(t),
    {
        let all: Vec<String> = collect_topics(&self.catalog.connections);
        sorted_unique(&all)
    }

    /// The message types of the recording, each once, in ascending order.
    pub fn types(&self) -> (r: Vec<String>)
        ensures
            texts(r@).no_duplicates(),
            ascending(texts(r@)),
            forall|t: Seq<char>| texts(r@).contains(t) <==> self.catalog().types().contains(t),
    {
        let all: Vec<String> = collect_types(&self.catalog.connections);
        sorted_unique(&all)
    }

    /// Each topic once, with the message type of the first connection on
    /// it.
    pub fn topics_and_types(&self) -> (r: Vec<(String, String)>)
        ensures
            lists_topic_types(r@, self.catalog()),
    {
        let all: Vec<String> = collect_topics(&self.catalog.connections);
        let names: Vec<String> = unique(&all);
        let mut out: Vec<(String, String)> = Vec::new();
        let mut i: usize = 0;
        while i < names.len()
            invariant
                0 <= i <= names@.len(),
                texts(all@) == topic_texts(self.catalog@.connections),
                forall|t: Seq<char>| texts(names@).contains(t) <==> texts(all@).contains(t),
                out@.len() == i,
                forall|k: int|
                    0 <= k < i ==> (#[trigger] out@[k]).0@ == names@[k]@ && self.catalog@.type_of(
                        names@[k]@,
                    ) == Some(out@[k].1@),
            decreases names@.len() - i,
        {
            proof {
                let t = names@[i as int]@;
                assert(texts(names@)[i as int] == t);
                assert(texts(all@).contains(t));
                let at = choose|at: int| 0 <= at < texts(all@).len() && texts(all@)[at] == t;
                lemma_first_on_finds(self.catalog@.connections, t, 0, at);
            }
            // Each name is the topic of a connection, so one is found.
            let data_type: String = match find_topic(&self.catalog.connections, &names[i]) {
                Some(at) => self.catalog.connections[at].data_type.clone(),
                None => String::new(),
            };
            out.push((names[i].clone(), data_type));
            i += 1;
        }
        assert(typed_topics(out@) =~= texts(names@));
        out
    }
}

} // verus!
