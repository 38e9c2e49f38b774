//! What a full scan finds is what the chunks hold: a catalog built by a
//! scan is faithful to the recording.

use crate::catalog::{CatalogView, ChunkEntryView, ConnectionView, MAGIC_LEN};
use crate::chunk::chunk_content;
use crate::counting::{keyed_term, only};
use crate::laws::{
    carried, chunk_faithful, chunk_messages, faithful, lemma_tally_keyed, msg_key, unit,
};
use crate::message::{yield_from, Message};
use crate::query::QueryView;
use crate::record::{record_at, Record};
use crate::scan::{
    bump, scan_from, scan_record, scanned_catalog, tally_from, widen, TallyView,
};
use crate::summary::{count_term, lemma_sum_same, sum_to, tally};
use crate::time::Time;
use vstd::prelude::*;

verus! {

/// A sum whose terms are those of another sum, moved up by one place behind
/// a first term.
pub proof fn lemma_sum_shift(f: spec_fn(int) -> int, g: spec_fn(int) -> int, n: int)
    requires
        0 <= n,
        forall|k: int| 0 <= k < n ==> #[trigger] g(k) == f(k + 1),
    ensures
        sum_to(f, n + 1) == f(0) + sum_to(g, n),
    decreases n,
{
    assert(sum_to(f, n + 1) == sum_to(f, n) + f(n));
    if n > 0 {
        lemma_sum_shift(f, g, n - 1);
        assert(sum_to(g, n) == sum_to(g, n - 1) + g(n - 1));
    } else {
        assert(sum_to(f, 0) == 0);
    }
}

/// A sum of which one term is greater by `d` is greater by `d`.
pub proof fn lemma_sum_update(f: spec_fn(int) -> int, g: spec_fn(int) -> int, n: int, j: int, d: int)
    requires
        0 <= j < n,
        g(j) == f(j) + d,
        forall|k: int| 0 <= k < n && k != j ==> #[trigger] g(k) == f(k),
    ensures
        sum_to(g, n) == sum_to(f, n) + d,
    decreases n,
{
    if j == n - 1 {
        lemma_sum_same(g, f, n - 1);
    } else {
        lemma_sum_update(f, g, n - 1, j, d);
    }
}

/// A message before other messages is carried by its connection, and the
/// others as before.
pub proof fn lemma_carried_after(m: Message, rest: Seq<Message>, want: spec_fn(u32) -> bool)
    ensures
        carried(seq![m] + rest, want) == carried(rest, want) + if want(m.conn) {
            1int
        } else {
            0int
        },
{
    let whole = seq![m] + rest;
    let f = keyed_term(msg_key(whole), unit(), want);
    let g = keyed_term(msg_key(rest), unit(), want);
    assert forall|k: int| 0 <= k < rest.len() implies #[trigger] g(k) == f(k + 1) by {
        assert(whole[k + 1] == rest[k]);
    }
    lemma_sum_shift(f, g, rest.len() as int);
    assert(whole[0] == m);
}

/// One more message on a connection raises the tally of every set of
/// connections that holds the connection by one.
pub proof fn lemma_bump_tally(
    counts: Seq<(u32, u32)>,
    conn: u32,
    from: int,
    want: spec_fn(u32) -> bool,
)
    requires
        0 <= from,
        forall|k: int| 0 <= k < counts.len() ==> (#[trigger] counts[k]).1 < u32::MAX,
    ensures
        tally(bump(counts, conn, from), want) == tally(counts, want) + if want(conn) {
            1int
        } else {
            0int
        },
    decreases counts.len() - from,
{
    let n = counts.len() as int;
    let f = count_term(counts, want);
    if from >= n {
        let more = counts.push((conn, 1u32));
        let g = count_term(more, want);
        assert forall|k: int| 0 <= k < n implies #[trigger] g(k) == f(k) by {
            assert(more[k] == counts[k]);
        }
        lemma_sum_same(g, f, n);
        assert(more[n] == (conn, 1u32));
    } else if counts[from].0 == conn {
        let more = counts.update(from, (conn, (counts[from].1 + 1) as u32));
        let g = count_term(more, want);
        assert forall|k: int| 0 <= k < n && k != from implies #[trigger] g(k) == f(k) by {
            assert(more[k] == counts[k]);
        }
        let d = if want(conn) {
            1int
        } else {
            0int
        };
        assert(more[from] == (conn, (counts[from].1 + 1) as u32));
        assert(g(from) == f(from) + d);
        lemma_sum_update(f, g, n, from, d);
    } else {
        lemma_bump_tally(counts, conn, from + 1, want);
    }
}

/// Whether `t` lies in the time range `span`.
pub open spec fn in_span(span: Option<(Time, Time)>, t: Time) -> bool {
    match span {
        Some((first, last)) => first.nanos() <= t.nanos() <= last.nanos(),
        None => false,
    }
}

/// Whether the time range `outer` holds the time range `inner`.
pub open spec fn span_within(inner: Option<(Time, Time)>, outer: Option<(Time, Time)>) -> bool {
    match inner {
        Some((first, last)) => in_span(outer, first) && in_span(outer, last),
        None => true,
    }
}

/// What a scan tallies from position `pos` of a chunk's content on is what
/// the content holds from there on: for each connection the count goes up by
/// the number of its messages, and the time range comes to hold the times
/// of all messages.
pub proof fn lemma_tally_counts_messages(
    c: Seq<u8>,
    pos: int,
    acc: TallyView,
    conns: Seq<ConnectionView>,
)
    requires
        0 <= pos,
        c.len() <= u32::MAX,
        forall|k: int| 0 <= k < acc.counts.len() ==> (#[trigger] acc.counts[k]).1 * 8 <= pos,
        tally_from(c, pos, acc) is Some,
        yield_from(c, pos, conns, QueryView::all()).fault is None,
        span_within(acc.span, acc.span),
    ensures
        forall|id: u32| #[trigger]
            tally(tally_from(c, pos, acc)->0.counts, only(id)) == tally(acc.counts, only(id))
                + carried(yield_from(c, pos, conns, QueryView::all()).msgs, only(id)),
        span_within(acc.span, tally_from(c, pos, acc)->0.span),
        forall|k: int|
            0 <= k < yield_from(c, pos, conns, QueryView::all()).msgs.len() ==> in_span(
                tally_from(c, pos, acc)->0.span,
                (#[trigger] yield_from(c, pos, conns, QueryView::all()).msgs[k]).time,
            ),
    decreases c.len() - pos,
{
    let all = QueryView::all();
    let found = yield_from(c, pos, conns, all).msgs;
    if pos >= c.len() {
        assert forall|id: u32| #[trigger]
            tally(acc.counts, only(id)) == tally(acc.counts, only(id)) + carried(found, only(id)) by {
            assert(carried(found, only(id)) == 0);
        }
    } else {
        let p = record_at(c, pos)->0;
        let next = p.next as int;
        match p.record {
            Record::Connection { conn, topic, data } => {
                let x = crate::catalog::connection_at(c, conn, topic, data)->0;
                let acc2 = TallyView {
                    connections: crate::catalog::with_connection(acc.connections, x),
                    counts: acc.counts,
                    span: acc.span,
                };
                lemma_tally_counts_messages(c, next, acc2, conns);
            },
            Record::MessageData { conn, time, data } => {
                let acc2 = TallyView {
                    connections: acc.connections,
                    counts: bump(acc.counts, conn, 0),
                    span: widen(acc.span, time),
                };
                crate::scan::lemma_bump(acc.counts, conn, 0);
                lemma_tally_counts_messages(c, next, acc2, conns);
                let topic = crate::catalog::topic_of(conns, conn)->0;
                let m = Message { conn, topic, time, data: data.of(c) };
                let rest = yield_from(c, next, conns, all).msgs;
                assert(found == seq![m] + rest);
                let done = tally_from(c, pos, acc)->0;
                assert forall|id: u32| #[trigger]
                    tally(done.counts, only(id)) == tally(acc.counts, only(id)) + carried(
                        found,
                        only(id),
                    ) by {
                    lemma_bump_tally(acc.counts, conn, 0, only(id));
                    lemma_carried_after(m, rest, only(id));
                    assert(tally(done.counts, only(id)) == tally(acc2.counts, only(id)) + carried(
                        rest,
                        only(id),
                    ));
                }
                assert forall|k: int| 0 <= k < found.len() implies in_span(
                    done.span,
                    (#[trigger] found[k]).time,
                ) by {
                    if k > 0 {
                        assert(found[k] == rest[k - 1]);
                    }
                }
            },
            _ => {},
        }
    }
}

/// Whether an entry holds what a scan of its chunk tallies: the counts and
/// the time range of the chunk's records.
pub open spec fn tallied(s: Seq<u8>, e: ChunkEntryView) -> bool {
    match chunk_content(s, e.chunk) {
        Ok(content) => exists|before: Seq<ConnectionView>|
            match #[trigger] tally_from(
                content,
                0,
                TallyView { connections: before, counts: Seq::empty(), span: None },
            ) {
                Some(t) => t.counts == e.info.counts && t.span == Some(
                    (e.info.start_time, e.info.end_time),
                ),
                None => false,
            },
        Err(_) => false,
    }
}

/// Every entry of a scanned catalog holds what a scan of its chunk tallies.
pub proof fn lemma_scan_tallied(s: Seq<u8>, pos: int, acc: CatalogView)
    requires
        forall|i: int| 0 <= i < acc.chunks.len() ==> tallied(s, #[trigger] acc.chunks[i]),
    ensures
        scan_from(s, pos, acc) is Ok ==> forall|i: int|
            0 <= i < scan_from(s, pos, acc)->Ok_0.chunks.len() ==> tallied(
                s,
                #[trigger] scan_from(s, pos, acc)->Ok_0.chunks[i],
            ),
    decreases s.len() - pos,
{
    if pos < s.len() {
        match record_at(s, pos) {
            None => {},
            Some(p) => {
                if p.next > pos {
                    match scan_record(s, pos, acc) {
                        Ok(found) => {
                            match p.record {
                                Record::Chunk { .. } => {
                                    let chunk = crate::catalog::chunk_at(s, pos)->0;
                                    let content = chunk_content(s, chunk)->Ok_0;
                                    let t = tally_from(
                                        content,
                                        0,
                                        TallyView {
                                            connections: acc.connections,
                                            counts: Seq::empty(),
                                            span: None,
                                        },
                                    )->0;
                                    assert forall|i: int|
                                        0 <= i < found.chunks.len() implies tallied(
                                        s,
                                        #[trigger] found.chunks[i],
                                    ) by {
                                        if i < acc.chunks.len() {
                                            assert(found.chunks[i] == acc.chunks[i]);
                                        }
                                    }
                                },
                                _ => {},
                            }
                            lemma_scan_tallied(s, p.next as int, found);
                        },
                        Err(_) => {},
                    }
                }
            },
        }
    }
}

/// A catalog built by a full scan is faithful to the recording, where none
/// of its chunks holds a message of a connection that the recording does not
/// declare: the counts and time ranges of its chunks are those of the
/// chunks' messages.
pub proof fn law_scan_is_faithful(s: Seq<u8>)
    requires
        scanned_catalog(s) is Ok,
        forall|i: int|
            0 <= i < scanned_catalog(s)->Ok_0.chunks.len() ==> (#[trigger] chunk_messages(
                s,
                scanned_catalog(s)->Ok_0,
                i,
            )).fault is None,
    ensures
        faithful(s, scanned_catalog(s)->Ok_0),
{
    let cat = scanned_catalog(s)->Ok_0;
    let first = record_at(s, MAGIC_LEN as int)->0;
    lemma_scan_tallied(s, first.next as int, CatalogView::empty());
    assert forall|i: int| 0 <= i < cat.chunks.len() implies #[trigger] chunk_faithful(s, cat, i) by {
        let e = cat.chunks[i];
        assert(tallied(s, e));
        assert(chunk_messages(s, cat, i).fault is None);
        let content = chunk_content(s, e.chunk)->Ok_0;
        let before = choose|before: Seq<ConnectionView>|
            match #[trigger] tally_from(
                content,
                0,
                TallyView { connections: before, counts: Seq::empty(), span: None },
            ) {
                Some(t) => t.counts == e.info.counts && t.span == Some(
                    (e.info.start_time, e.info.end_time),
                ),
                None => false,
            };
        let start = TallyView { connections: before, counts: Seq::empty(), span: None };
        lemma_tally_counts_messages(content, 0, start, cat.connections);
        let found = chunk_messages(s, cat, i).msgs;
        assert forall|id: u32| #[trigger]
            tally(e.info.counts, only(id)) == carried(found, only(id)) by {
            assert(tally(tally_from(content, 0, start)->0.counts, only(id)) == tally(
                start.counts,
                only(id),
            ) + carried(found, only(id)));
            assert(tally(start.counts, only(id)) == 0);
        }
    }
}

} // verus!
