//! The catalog that the trailing index gives against the catalog that a
//! full scan gives.

use crate::catalog::{
    distinct_ids, index_from, indexed_catalog, lemma_position, lemma_with_connection_distinct,
    position, topic_of, CatalogView, ChunkEntryView, ConnectionView, MAGIC_LEN,
};
use crate::counting::{lemma_keyed_agree, only};
use crate::laws::{count_key, count_weight, lemma_tally_keyed};
use crate::record::{record_at, Record};
use crate::scan::{scan_from, scan_record, scanned_catalog, tally_from, TallyView};
use crate::summary::{
    chunk_term, codec_texts, compressed_term, count_term, earliest, latest, lemma_sum_same,
    tally, topic_texts, type_texts, uncompressed_term, using_term, wanted,
};
use vstd::prelude::*;

verus! {

/// Whether two lists hold the same connections, in whatever order.
pub open spec fn same_connections(a: Seq<ConnectionView>, b: Seq<ConnectionView>) -> bool {
    &&& forall|i: int| 0 <= i < a.len() ==> b.contains(#[trigger] a[i])
    &&& forall|j: int| 0 <= j < b.len() ==> a.contains(#[trigger] b[j])
}

/// Whether two lists hold the same chunks in the same order, with the same
/// time ranges and, for each connection, counts that add up to the same.
pub open spec fn same_chunks(a: Seq<ChunkEntryView>, b: Seq<ChunkEntryView>) -> bool {
    &&& a.len() == b.len()
    &&& forall|i: int|
        0 <= i < a.len() ==> {
            &&& (#[trigger] a[i]).chunk == b[i].chunk
            &&& a[i].info.start_time == b[i].info.start_time
            &&& a[i].info.end_time == b[i].info.end_time
            &&& forall|c: u32| #[trigger]
                tally(a[i].info.counts, only(c)) == tally(b[i].info.counts, only(c))
        }
}

/// Whether catalog `a` says of each connection and each chunk what catalog
/// `b` says, whatever the order of the connections and of the counts.
pub open spec fn agree(a: CatalogView, b: CatalogView) -> bool {
    same_connections(a.connections, b.connections) && same_chunks(a.chunks, b.chunks)
}

/// Whether two catalogs sum up to the same: topics, types, message counts
/// in all and by topic, time bounds, and compression totals by codec.
pub open spec fn same_summary(a: CatalogView, b: CatalogView) -> bool {
    &&& a.topics() == b.topics()
    &&& a.types() == b.types()
    &&& a.message_count() == b.message_count()
    &&& forall|t: Seq<char>| #[trigger] a.topic_count(t) == b.topic_count(t)
    &&& a.start_time() == b.start_time()
    &&& a.end_time() == b.end_time()
    &&& a.codecs() == b.codecs()
    &&& forall|name: Option<Seq<char>>|
        {
            &&& #[trigger] a.chunks_using(name) == b.chunks_using(name)
            &&& a.compressed_bytes(name) == b.compressed_bytes(name)
            &&& a.uncompressed_bytes(name) == b.uncompressed_bytes(name)
        }
}

/// Among connections with distinct numbers, a connection is found by its
/// number.
pub proof fn lemma_found_by_id(conns: Seq<ConnectionView>, j: int)
    requires
        distinct_ids(conns),
        0 <= j < conns.len(),
    ensures
        position(conns, conns[j].id, 0) == Some(j),
{
    lemma_position(conns, conns[j].id, 0);
}

/// Lists of the same connections with distinct numbers give each number
/// the same topic.
pub proof fn lemma_same_topic_of(a: Seq<ConnectionView>, b: Seq<ConnectionView>, id: u32)
    requires
        distinct_ids(a),
        distinct_ids(b),
        same_connections(a, b),
    ensures
        topic_of(a, id) == topic_of(b, id),
{
    lemma_position(a, id, 0);
    lemma_position(b, id, 0);
    match position(a, id, 0) {
        Some(i) => {
            assert(b.contains(a[i]));
            let j = choose|j: int| 0 <= j < b.len() && b[j] == a[i];
            lemma_found_by_id(b, j);
        },
        None => {
            match position(b, id, 0) {
                Some(j) => {
                    assert(a.contains(b[j]));
                },
                None => {},
            }
        },
    }
}

/// Counts that add up to the same for each connection add up to the same
/// for any set of connections.
pub proof fn lemma_tally_agrees(a: Seq<(u32, u32)>, b: Seq<(u32, u32)>, want: spec_fn(u32) -> bool)
    requires
        forall|c: u32| #[trigger] tally(a, only(c)) == tally(b, only(c)),
    ensures
        tally(a, want) == tally(b, want),
{
    assert forall|c: u32| #[trigger]
        crate::counting::keyed_sum(count_key(a), count_weight(a), a.len() as int, only(c))
            == crate::counting::keyed_sum(
            count_key(b),
            count_weight(b),
            b.len() as int,
            only(c),
        ) by {
        lemma_tally_keyed(a, only(c));
        lemma_tally_keyed(b, only(c));
        assert(tally(a, only(c)) == tally(b, only(c)));
    }
    lemma_keyed_agree(
        count_key(a),
        count_weight(a),
        a.len() as int,
        count_key(b),
        count_weight(b),
        b.len() as int,
        want,
    );
    lemma_tally_keyed(a, want);
    lemma_tally_keyed(b, want);
}

/// Catalogs that agree count the same messages on the same topic, or in
/// all.
pub proof fn lemma_same_count(a: CatalogView, b: CatalogView, topic: Option<Seq<char>>)
    requires
        distinct_ids(a.connections),
        distinct_ids(b.connections),
        agree(a, b),
    ensures
        crate::summary::messages_where(a.chunks, wanted(a.connections, topic))
            == crate::summary::messages_where(b.chunks, wanted(b.connections, topic)),
{
    let want_a = wanted(a.connections, topic);
    let want_b = wanted(b.connections, topic);
    assert forall|c: u32| #[trigger] want_a(c) == want_b(c) by {
        lemma_same_topic_of(a.connections, b.connections, c);
    }
    let term_a = chunk_term(a.chunks, want_a);
    let term_b = chunk_term(b.chunks, want_b);
    assert forall|i: int| 0 <= i < a.chunks.len() implies #[trigger] term_a(i) == term_b(i) by {
        let x = a.chunks[i].info.counts;
        let y = b.chunks[i].info.counts;
        lemma_tally_agrees(x, y, want_a);
        assert forall|k: int| 0 <= k < y.len() implies #[trigger] count_term(y, want_a)(k)
            == count_term(y, want_b)(k) by {
            assert(want_a(y[k].0) == want_b(y[k].0));
        }
        lemma_sum_same(count_term(y, want_a), count_term(y, want_b), y.len() as int);
    }
    lemma_sum_same(term_a, term_b, a.chunks.len() as int);
}

/// Chunks with the same time ranges have the same time bounds.
pub proof fn lemma_same_bounds(a: Seq<ChunkEntryView>, b: Seq<ChunkEntryView>, n: int)
    requires
        same_chunks(a, b),
        0 <= n <= a.len(),
    ensures
        earliest(a, n) == earliest(b, n),
        latest(a, n) == latest(b, n),
    decreases n,
{
    if n > 0 {
        lemma_same_bounds(a, b, n - 1);
        assert(a[n - 1].info.start_time == b[n - 1].info.start_time);
    }
}

/// Catalogs that agree sum up to the same.
pub proof fn lemma_agree_same_summary(a: CatalogView, b: CatalogView)
    requires
        distinct_ids(a.connections),
        distinct_ids(b.connections),
        agree(a, b),
    ensures
        same_summary(a, b),
{
    assert forall|t: Seq<char>| topic_texts(a.connections).contains(t) <==> topic_texts(
        b.connections,
    ).contains(t) by {
        lemma_same_field(a.connections, b.connections, t, true);
        lemma_same_field(b.connections, a.connections, t, true);
    }
    assert(a.topics() =~= b.topics());
    assert forall|t: Seq<char>| type_texts(a.connections).contains(t) <==> type_texts(
        b.connections,
    ).contains(t) by {
        lemma_same_field(a.connections, b.connections, t, false);
        lemma_same_field(b.connections, a.connections, t, false);
    }
    assert(a.types() =~= b.types());
    lemma_same_count(a, b, None);
    assert forall|t: Seq<char>| #[trigger] a.topic_count(t) == b.topic_count(t) by {
        lemma_same_count(a, b, Some(t));
    }
    lemma_same_bounds(a.chunks, b.chunks, a.chunks.len() as int);
    assert(codec_texts(a.chunks) =~= codec_texts(b.chunks)) by {
        assert forall|i: int| 0 <= i < a.chunks.len() implies codec_texts(a.chunks)[i]
            == codec_texts(b.chunks)[i] by {
            assert(a.chunks[i].chunk == b.chunks[i].chunk);
        }
    }
    assert(a.codecs() =~= b.codecs());
    let n = a.chunks.len() as int;
    assert forall|name: Option<Seq<char>>|
        {
            &&& #[trigger] a.chunks_using(name) == b.chunks_using(name)
            &&& a.compressed_bytes(name) == b.compressed_bytes(name)
            &&& a.uncompressed_bytes(name) == b.uncompressed_bytes(name)
        } by {
        assert forall|i: int| 0 <= i < n implies {
            &&& #[trigger] using_term(a.chunks, name)(i) == using_term(b.chunks, name)(i)
            &&& compressed_term(a.chunks, name)(i) == compressed_term(b.chunks, name)(i)
            &&& uncompressed_term(a.chunks, name)(i) == uncompressed_term(b.chunks, name)(i)
        } by {
            assert(a.chunks[i].chunk == b.chunks[i].chunk);
        }
        lemma_sum_same(using_term(a.chunks, name), using_term(b.chunks, name), n);
        assert forall|i: int| 0 <= i < n implies #[trigger] compressed_term(a.chunks, name)(i)
            == compressed_term(b.chunks, name)(i) by {
            assert(using_term(a.chunks, name)(i) == using_term(b.chunks, name)(i));
        }
        lemma_sum_same(compressed_term(a.chunks, name), compressed_term(b.chunks, name), n);
        assert forall|i: int| 0 <= i < n implies #[trigger] uncompressed_term(a.chunks, name)(i)
            == uncompressed_term(b.chunks, name)(i) by {
            assert(using_term(a.chunks, name)(i) == using_term(b.chunks, name)(i));
        }
        lemma_sum_same(uncompressed_term(a.chunks, name), uncompressed_term(b.chunks, name), n);
    }
}

/// A topic, or a message type, of one list of connections is one of
/// another list that holds the same connections.
pub proof fn lemma_same_field(
    a: Seq<ConnectionView>,
    b: Seq<ConnectionView>,
    t: Seq<char>,
    topic: bool,
)
    requires
        same_connections(a, b),
    ensures
        topic && topic_texts(a).contains(t) ==> topic_texts(b).contains(t),
        !topic && type_texts(a).contains(t) ==> type_texts(b).contains(t),
{
    if topic && topic_texts(a).contains(t) {
        let i = choose|i: int| 0 <= i < topic_texts(a).len() && topic_texts(a)[i] == t;
        assert(b.contains(a[i]));
        let j = choose|j: int| 0 <= j < b.len() && b[j] == a[i];
        assert(topic_texts(b)[j] == t);
    }
    if !topic && type_texts(a).contains(t) {
        let i = choose|i: int| 0 <= i < type_texts(a).len() && type_texts(a)[i] == t;
        assert(b.contains(a[i]));
        let j = choose|j: int| 0 <= j < b.len() && b[j] == a[i];
        assert(type_texts(b)[j] == t);
    }
}

/// The connections of an index section have distinct numbers.
pub proof fn lemma_index_distinct(s: Seq<u8>, pos: int, acc: CatalogView)
    requires
        distinct_ids(acc.connections),
    ensures
        index_from(s, pos, acc) is Some ==> distinct_ids(index_from(s, pos, acc)->0.connections),
    decreases s.len() - pos,
{
    if pos < s.len() {
        match record_at(s, pos) {
            None => {},
            Some(p) => {
                if p.next > pos {
                    match p.record {
                        Record::Connection { conn, topic, data } => {
                            match crate::catalog::connection_at(s, conn, topic, data) {
                                Some(c) => {
                                    lemma_with_connection_distinct(acc.connections, c);
                                    lemma_index_distinct(s, p.next as int, acc.connect(c));
                                },
                                None => {},
                            }
                        },
                        Record::ChunkInfo { chunk_pos, start_time, end_time, count, data } => {
                            match crate::catalog::entry_at(
                                s,
                                chunk_pos,
                                start_time,
                                end_time,
                                count,
                                data,
                            ) {
                                Some(e) => {
                                    lemma_index_distinct(s, p.next as int, acc.append(e));
                                },
                                None => {},
                            }
                        },
                        _ => {},
                    }
                }
            },
        }
    }
}

/// The connections that the scan of a chunk's records knows have distinct
/// numbers.
pub proof fn lemma_tally_distinct(c: Seq<u8>, pos: int, acc: TallyView)
    requires
        distinct_ids(acc.connections),
    ensures
        tally_from(c, pos, acc) is Some ==> distinct_ids(tally_from(c, pos, acc)->0.connections),
    decreases c.len() - pos,
{
    if pos < c.len() {
        match record_at(c, pos) {
            None => {},
            Some(p) => {
                if p.next > pos {
                    match p.record {
                        Record::Connection { conn, topic, data } => {
                            match crate::catalog::connection_at(c, conn, topic, data) {
                                Some(x) => {
                                    lemma_with_connection_distinct(acc.connections, x);
                                    lemma_tally_distinct(
                                        c,
                                        p.next as int,
                                        TallyView {
                                            connections: crate::catalog::with_connection(
                                                acc.connections,
                                                x,
                                            ),
                                            counts: acc.counts,
                                            span: acc.span,
                                        },
                                    );
                                },
                                None => {},
                            }
                        },
                        Record::MessageData { conn, time, data } => {
                            lemma_tally_distinct(
                                c,
                                p.next as int,
                                TallyView {
                                    connections: acc.connections,
                                    counts: crate::scan::bump(acc.counts, conn, 0),
                                    span: crate::scan::widen(acc.span, time),
                                },
                            );
                        },
                        _ => {},
                    }
                }
            },
        }
    }
}

/// The connections of a scanned catalog have distinct numbers.
pub proof fn lemma_scan_distinct(s: Seq<u8>, pos: int, acc: CatalogView)
    requires
        distinct_ids(acc.connections),
    ensures
        scan_from(s, pos, acc) is Ok ==> distinct_ids(scan_from(s, pos, acc)->Ok_0.connections),
    decreases s.len() - pos,
{
    if pos < s.len() {
        match record_at(s, pos) {
            None => {},
            Some(p) => {
                if p.next > pos {
                    match scan_record(s, pos, acc) {
                        Ok(found) => {
                            match p.record {
                                Record::Chunk { .. } => {
                                    let chunk = crate::catalog::chunk_at(s, pos)->0;
                                    let content = crate::chunk::chunk_content(s, chunk)->Ok_0;
                                    lemma_tally_distinct(
                                        content,
                                        0,
                                        TallyView {
                                            connections: acc.connections,
                                            counts: Seq::empty(),
                                            span: None,
                                        },
                                    );
                                },
                                Record::Connection { conn, topic, data } => {
                                    let c = crate::catalog::connection_at(s, conn, topic, data)->0;
                                    lemma_with_connection_distinct(acc.connections, c);
                                },
                                _ => {},
                            }
                            lemma_scan_distinct(s, p.next as int, found);
                        },
                        Err(_) => {},
                    }
                }
            },
        }
    }
}

/// Where the trailing index of a recording says of each connection and of
/// each chunk what a scan of the recording finds, the catalog built from
/// the index and the catalog built by the scan sum up to the same: the same
/// topics and types, the same message counts in all and on each topic, the
/// same time bounds and the same compression totals.
pub proof fn law_index_agrees_with_scan(s: Seq<u8>)
    requires
        indexed_catalog(s) is Ok,
        scanned_catalog(s) is Ok,
        agree(indexed_catalog(s)->Ok_0, scanned_catalog(s)->Ok_0),
    ensures
        same_summary(indexed_catalog(s)->Ok_0, scanned_catalog(s)->Ok_0),
{
    let first = record_at(s, MAGIC_LEN as int)->0;
    match first.record {
        Record::BagHeader { index_pos, conn_count, chunk_count } => {
            lemma_index_distinct(s, index_pos as int, CatalogView::empty());
            lemma_scan_distinct(s, first.next as int, CatalogView::empty());
        },
        _ => {},
    }
    lemma_agree_same_summary(indexed_catalog(s)->Ok_0, scanned_catalog(s)->Ok_0);
}

} // verus!
