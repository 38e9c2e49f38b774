//! Catalog construction: from the trailing index where the recording has
//! one, and otherwise by a scan of every chunk and connection record.

use crate::catalog::{
    add_connection, check_magic, chunk_at, connection_at, connection_views, distinct_ids,
    ends_before, has_magic, indexed_catalog, lemma_record_spans, lemma_with_connection_distinct,
    read_chunk_at, read_connection, read_indexed, with_connection, Catalog, CatalogView, Chunk,
    ChunkEntry, ChunkEntryView, ChunkInfo, ChunkInfoView, ChunkView, Connection, ConnectionView,
    MAGIC_LEN,
};
use crate::chunk::{chunk_content, load_chunk};
use crate::errors::{Error, Fault};
use crate::record::{parse_record, record_at, Parsed, Record};
use crate::time::Time;
use vstd::prelude::*;

verus! {

/// `counts` with one more message on connection `conn`: its count goes up by
/// one, or it gets a count of one at the end. The search starts at `from`.
pub open spec fn bump(counts: Seq<(u32, u32)>, conn: u32, from: int) -> Seq<(u32, u32)>
    decreases counts.len() - from,
{
    if from < 0 || from >= counts.len() {
        counts.push((conn, 1u32))
    } else if counts[from].0 == conn {
        counts.update(from, (conn, (counts[from].1 + 1) as u32))
    } else {
        bump(counts, conn, from + 1)
    }
}

/// The time range `span` widened to hold `t`.
pub open spec fn widen(span: Option<(Time, Time)>, t: Time) -> Option<(Time, Time)> {
    match span {
        None => Some((t, t)),
        Some((first, last)) => Some(
            (
                if t.nanos() < first.nanos() {
                    t
                } else {
                    first
                },
                if t.nanos() > last.nanos() {
                    t
                } else {
                    last
                },
            ),
        ),
    }
}

/// Whether the first time of a range is not later than the last.
pub open spec fn span_ordered(span: Option<(Time, Time)>) -> bool {
    match span {
        Some((first, last)) => first.nanos() <= last.nanos(),
        None => true,
    }
}

/// What a scan of a chunk's records has found: the connections known so
/// far, the number of messages on each connection of the chunk, and the
/// times of its earliest and latest message.
pub struct TallyView {
    pub connections: Seq<ConnectionView>,
    pub counts: Seq<(u32, u32)>,
    pub span: Option<(Time, Time)>,
}

/// The message counts and the time range of one chunk.
pub struct Tally {
    pub counts: Vec<(u32, u32)>,
    pub span: Option<(Time, Time)>,
}

/// The tally after the records of chunk content `c` from `pos` on, each a
/// connection record or a message record. `None` when one is malformed or of
/// another kind.
pub open spec fn tally_from(c: Seq<u8>, pos: int, acc: TallyView) -> Option<TallyView>
    decreases c.len() - pos,
{
    if pos >= c.len() {
        Some(acc)
    } else {
        match record_at(c, pos) {
            None => None,
            Some(p) => if p.next <= pos {
                None
            } else {
                match p.record {
                    Record::Connection { conn, topic, data } => match connection_at(
                        c,
                        conn,
                        topic,
                        data,
                    ) {
                        Some(x) => tally_from(
                            c,
                            p.next as int,
                            TallyView {
                                connections: with_connection(acc.connections, x),
                                counts: acc.counts,
                                span: acc.span,
                            },
                        ),
                        None => None,
                    },
                    Record::MessageData { conn, time, data } => tally_from(
                        c,
                        p.next as int,
                        TallyView {
                            connections: acc.connections,
                            counts: bump(acc.counts, conn, 0),
                            span: widen(acc.span, time),
                        },
                    ),
                    _ => None,
                }
            },
        }
    }
}

/// A bump leaves every count where it was or one higher, and a new count is
/// one.
pub proof fn lemma_bump(counts: Seq<(u32, u32)>, conn: u32, from: int)
    requires
        0 <= from,
        forall|k: int| 0 <= k < counts.len() ==> counts[k].1 < u32::MAX,
    ensures
        counts.len() <= bump(counts, conn, from).len() <= counts.len() + 1,
        forall|k: int|
            0 <= k < counts.len() ==> counts[k].1 <= (#[trigger] bump(counts, conn, from)[k]).1
                <= counts[k].1 + 1,
        bump(counts, conn, from).len() > counts.len() ==> bump(counts, conn, from)[
            counts.len() as int
        ].1 == 1,
    decreases counts.len() - from,
{
    if from < counts.len() && counts[from].0 != conn {
        lemma_bump(counts, conn, from + 1);
    }
}

/// Counts one more message on connection `conn`.
pub fn bump_count(counts: &mut Vec<(u32, u32)>, conn: u32)
    requires
        forall|k: int| 0 <= k < old(counts)@.len() ==> old(counts)@[k].1 < u32::MAX,
    ensures
        final(counts)@ == bump(old(counts)@, conn, 0),
{
    let mut i: usize = 0;
    while i < counts.len()
        invariant
            0 <= i <= counts@.len(),
            counts@ == old(counts)@,
            forall|k: int| 0 <= k < counts@.len() ==> counts@[k].1 < u32::MAX,
            bump(old(counts)@, conn, 0) == bump(old(counts)@, conn, i as int),
        decreases counts@.len() - i,
    {
        if counts[i].0 == conn {
            let n: u32 = counts[i].1;
            counts.set(i, (conn, n + 1));
            return;
        }
        i += 1;
    }
    counts.push((conn, 1));
}

/// Widens a time range to hold `t`.
pub fn widen_span(span: Option<(Time, Time)>, t: Time) -> (r: Option<(Time, Time)>)
    ensures
        r == widen(span, t),
{
    match span {
        None => Some((t, t)),
        Some((first, last)) => Some(
            (
                if t.lt(&first) {
                    t
                } else {
                    first
                },
                if last.lt(&t) {
                    t
                } else {
                    last
                },
            ),
        ),
    }
}

/// Scans the records of one chunk's content: adds its connections to
/// `conns` and tallies its messages.
pub fn tally_chunk(content: &[u8], conns: &mut Vec<Connection>) -> (r: Option<Tally>)
    requires
        content@.len() <= u32::MAX,
        distinct_ids(connection_views(old(conns)@)),
    ensures
        match r {
            Some(t) => tally_from(
                content@,
                0,
                TallyView {
                    connections: connection_views(old(conns)@),
                    counts: Seq::empty(),
                    span: None,
                },
            ) == Some(
                TallyView {
                    connections: connection_views(final(conns)@),
                    counts: t.counts@,
                    span: t.span,
                },
            ) && distinct_ids(connection_views(final(conns)@)) && span_ordered(t.span),
            None => tally_from(
                content@,
                0,
                TallyView {
                    connections: connection_views(old(conns)@),
                    counts: Seq::empty(),
                    span: None,
                },
            ) is None,
        },
{
    let len: usize = content.len();
    let mut counts: Vec<(u32, u32)> = Vec::new();
    let mut span: Option<(Time, Time)> = None;
    let mut pos: usize = 0;
    while pos < len
        invariant
            len == content@.len(),
            len <= u32::MAX,
            distinct_ids(connection_views(conns@)),
            span_ordered(span),
            forall|k: int| 0 <= k < counts@.len() ==> counts@[k].1 * 8 <= pos,
            tally_from(
                content@,
                0,
                TallyView {
                    connections: connection_views(old(conns)@),
                    counts: Seq::empty(),
                    span: None,
                },
            ) == tally_from(
                content@,
                pos as int,
                TallyView { connections: connection_views(conns@), counts: counts@, span },
            ),
        decreases len - pos,
    {
        let p: Parsed = match parse_record(content, pos) {
            Ok(p) => p,
            Err(_) => {
                return None;
            },
        };
        proof {
            lemma_record_spans(content@, pos as int);
        }
        match p.record {
            Record::Connection { conn, topic, data } => {
                match read_connection(content, conn, topic, data) {
                    Some(c) => {
                        proof {
                            lemma_with_connection_distinct(connection_views(conns@), c@);
                        }
                        add_connection(conns, c);
                    },
                    None => {
                        return None;
                    },
                }
            },
            Record::MessageData { conn, time, data } => {
                proof {
                    lemma_bump(counts@, conn, 0);
                }
                bump_count(&mut counts, conn);
                span = widen_span(span, time);
            },
            _ => {
                return None;
            },
        }
        pos = p.next;
    }
    Some(Tally { counts, span })
}

/// The catalog after a chunk has been scanned: the connections that the
/// scan knows, and one more entry when the chunk holds a message.
pub open spec fn settle(acc: CatalogView, chunk: ChunkView, t: TallyView) -> CatalogView {
    match t.span {
        Some((first, last)) => CatalogView {
            connections: t.connections,
            chunks: acc.chunks.push(
                ChunkEntryView {
                    chunk,
                    info: ChunkInfoView { start_time: first, end_time: last, counts: t.counts },
                },
            ),
        },
        None => CatalogView { connections: t.connections, chunks: acc.chunks },
    }
}

/// The catalog after the chunk whose record starts at `pos` has been
/// decompressed and scanned.
pub open spec fn scan_chunk_at(s: Seq<u8>, pos: int, acc: CatalogView) -> Result<
    CatalogView,
    Fault,
> {
    match chunk_at(s, pos) {
        None => Err(Fault::MalformedRecord),
        Some(chunk) => match chunk_content(s, chunk) {
            Err(f) => Err(f),
            Ok(content) => match tally_from(
                content,
                0,
                TallyView { connections: acc.connections, counts: Seq::empty(), span: None },
            ) {
                None => Err(Fault::MalformedRecord),
                Some(t) => Ok(settle(acc, chunk, t)),
            },
        },
    }
}

/// Decompresses and scans the chunk whose record starts at `pos`, and adds
/// what it holds to `catalog`.
pub fn scan_chunk(data: &[u8], pos: usize, catalog: &mut Catalog) -> (r: Result<(), Error>)
    requires
        old(catalog)@.wf(data@),
        ends_before(old(catalog)@.chunks, pos as int),
    ensures
        r is Ok && record_at(data@, pos as int) is Some ==> ends_before(
            final(catalog)@.chunks,
            record_at(data@, pos as int)->0.next as int,
        ),
        match r {
            Ok(_) => scan_chunk_at(data@, pos as int, old(catalog)@) == Ok::<CatalogView, Fault>(
                final(catalog)@,
            ) && final(catalog)@.wf(data@),
            Err(e) => scan_chunk_at(data@, pos as int, old(catalog)@) == Err::<
                CatalogView,
                Fault,
            >(e@),
        },
{
    let chunk: Chunk = match read_chunk_at(data, pos) {
        Some(chunk) => chunk,
        None => {
            return Err(Error::MalformedRecord);
        },
    };
    let content: Vec<u8> = match load_chunk(data, &chunk) {
        Ok(content) => content,
        Err(e) => {
            return Err(e);
        },
    };
    let tally: Tally = match tally_chunk(content.as_slice(), &mut catalog.connections) {
        Some(t) => t,
        None => {
            return Err(Error::MalformedRecord);
        },
    };
    match tally.span {
        Some((first_time, last_time)) => {
            catalog.push_chunk(
                ChunkEntry {
                    chunk,
                    info: ChunkInfo {
                        start_time: first_time,
                        end_time: last_time,
                        counts: tally.counts,
                    },
                },
            );
        },
        None => {},
    }
    Ok(())
}

/// The catalog after the record at `pos` has been scanned. A chunk is
/// decompressed and its records are tallied; a connection record adds its
/// connection; records of other kinds change nothing.
pub open spec fn scan_record(s: Seq<u8>, pos: int, acc: CatalogView) -> Result<CatalogView, Fault> {
    match record_at(s, pos) {
        None => Err(Fault::MalformedRecord),
        Some(p) => match p.record {
            Record::Chunk { .. } => scan_chunk_at(s, pos, acc),
            Record::Connection { conn, topic, data } => match connection_at(s, conn, topic, data) {
                Some(c) => Ok(acc.connect(c)),
                None => Err(Fault::MalformedRecord),
            },
            _ => Ok(acc),
        },
    }
}

/// The catalog that a scan of the records from `pos` to the end of `s` adds
/// to `acc`.
pub open spec fn scan_from(s: Seq<u8>, pos: int, acc: CatalogView) -> Result<CatalogView, Fault>
    decreases s.len() - pos,
{
    if pos >= s.len() {
        Ok(acc)
    } else {
        match record_at(s, pos) {
            None => Err(Fault::MalformedRecord),
            Some(p) => if p.next <= pos {
                Err(Fault::MalformedRecord)
            } else {
                match scan_record(s, pos, acc) {
                    Err(f) => Err(f),
                    Ok(found) => scan_from(s, p.next as int, found),
                }
            },
        }
    }
}

/// Scans the record at `pos` into `catalog` and gives the position of the
/// record after it.
pub fn scan_one(data: &[u8], pos: usize, catalog: &mut Catalog) -> (r: Result<usize, Error>)
    requires
        old(catalog)@.wf(data@),
        ends_before(old(catalog)@.chunks, pos as int),
        pos < data@.len(),
    ensures
        r is Ok ==> ends_before(final(catalog)@.chunks, r->Ok_0 as int),
        record_at(data@, pos as int) is Some ==> pos < record_at(data@, pos as int)->0.next
            <= data@.len(),
        match r {
            Ok(next) => record_at(data@, pos as int) is Some && next == record_at(
                data@,
                pos as int,
            )->0.next && pos < next <= data@.len() && scan_record(
                data@,
                pos as int,
                old(catalog)@,
            ) == Ok::<CatalogView, Fault>(final(catalog)@) && final(catalog)@.wf(data@),
            Err(e) => scan_record(data@, pos as int, old(catalog)@) == Err::<CatalogView, Fault>(
                e@,
            ),
        },
{
    let len: usize = data.len();
    let p: Parsed = match parse_record(data, pos) {
        Ok(p) => p,
        Err(e) => {
            return Err(e);
        },
    };
    proof {
        lemma_record_spans(data@, pos as int);
    }
    match p.record {
        Record::Chunk { .. } => {
            match scan_chunk(data, pos, catalog) {
                Ok(_) => {},
                Err(e) => {
                    return Err(e);
                },
            }
        },
        Record::Connection { conn, topic, data: span } => {
            match read_connection(data, conn, topic, span) {
                Some(c) => {
                    proof {
                        lemma_with_connection_distinct(catalog@.connections, c@);
                    }
                    catalog.connect(c);
                },
                None => {
                    return Err(Error::MalformedRecord);
                },
            }
        },
        _ => {},
    }
    Ok(p.next)
}

/// The catalog that a full scan of `s` gives.
pub open spec fn scanned_catalog(s: Seq<u8>) -> Result<CatalogView, Fault> {
    match record_at(s, MAGIC_LEN as int) {
        Some(p) => match p.record {
            Record::BagHeader { .. } => scan_from(s, p.next as int, CatalogView::empty()),
            _ => Err(Fault::MalformedRecord),
        },
        None => Err(Fault::MalformedRecord),
    }
}

/// Builds the catalog by a scan of every record after the leading one.
pub fn read_scanned(data: &[u8]) -> (r: Result<Catalog, Error>)
    ensures
        match r {
            Ok(c) => scanned_catalog(data@) == Ok::<CatalogView, Fault>(c@) && c@.wf(data@),
            Err(e) => scanned_catalog(data@) == Err::<CatalogView, Fault>(e@),
        },
{
    let len: usize = data.len();
    let first: Parsed = match parse_record(data, MAGIC_LEN) {
        Ok(p) => p,
        Err(e) => {
            return Err(e);
        },
    };
    match first.record {
        Record::BagHeader { .. } => {},
        _ => {
            return Err(Error::MalformedRecord);
        },
    }
    let mut catalog: Catalog = Catalog::new();
    let mut pos: usize = first.next;
    while pos < len
        invariant
            len == data@.len(),
            catalog@.wf(data@),
            ends_before(catalog@.chunks, pos as int),
            scanned_catalog(data@) == scan_from(data@, pos as int, catalog@),
        decreases len - pos,
    {
        match scan_one(data, pos, &mut catalog) {
            Ok(next) => {
                pos = next;
            },
            Err(e) => {
                return Err(e);
            },
        }
    }
    Ok(catalog)
}

/// How a catalog was built.
#[derive(Clone, Copy, Debug, PartialEq, Eq, Structural)]
pub enum Origin {
    /// From the trailing index.
    Indexed,
    /// By a scan of every record, for want of an index.
    Scanned,
}

/// The catalog of recording `s` and how it is built: from the trailing
/// index, or by a full scan when the index is missing. A recording that does
/// not open with the version line is refused with `InvalidFormat`.
pub open spec fn built_catalog(s: Seq<u8>) -> Result<(CatalogView, Origin), Fault> {
    if !has_magic(s) {
        Err(Fault::InvalidFormat)
    } else {
        match indexed_catalog(s) {
            Ok(c) => Ok((c, Origin::Indexed)),
            Err(Fault::MissingIndex) => match scanned_catalog(s) {
                Ok(c) => Ok((c, Origin::Scanned)),
                Err(f) => Err(f),
            },
            Err(f) => Err(f),
        }
    }
}

/// Builds the catalog of a recording, from its index or, when that is
/// missing, by a full scan.
pub fn read_catalog(data: &[u8]) -> (r: Result<(Catalog, Origin), Error>)
    ensures
        match r {
            Ok((c, origin)) => built_catalog(data@) == Ok::<(CatalogView, Origin), Fault>(
                (c@, origin),
            ) && c@.wf(data@),
            Err(e) => built_catalog(data@) == Err::<(CatalogView, Origin), Fault>(e@),
        },
{
    if !check_magic(data) {
        return Err(Error::InvalidFormat);
    }
    match read_indexed(data) {
        Ok(c) => Ok((c, Origin::Indexed)),
        Err(Error::MissingIndex) => match read_scanned(data) {
            Ok(c) => Ok((c, Origin::Scanned)),
            Err(e) => Err(e),
        },
        Err(e) => Err(e),
    }
}

} // verus!
