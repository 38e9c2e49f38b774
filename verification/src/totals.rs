//! The sums of a catalog, computed with care for overflow.

use crate::catalog::{
    connection_views, entry_views, find_connection, Catalog, ChunkEntry, Connection,
};
use crate::summary::{
    chunk_term, compressed_term, count_term, earliest, latest, lemma_sum_grows, messages_where,
    sum_to, tally, uncompressed_term, using_term, wanted,
};
use crate::time::Time;
use vstd::prelude::*;

verus! {

/// The text of an optional string.
pub open spec fn text(name: Option<&String>) -> Option<Seq<char>> {
    match name {
        Some(t) => Some(t@),
        None => None,
    }
}

/// Adds two numbers; `None` when the sum does not fit.
pub fn add_checked(a: u64, b: u64) -> (r: Option<u64>)
    ensures
        r == if a + b <= u64::MAX {
            Some((a + b) as u64)
        } else {
            None::<u64>
        },
{
    if a <= u64::MAX - b {
        Some(a + b)
    } else {
        None
    }
}

/// Whether connection `conn` is wanted: always without a topic, and with one
/// when it is the connection's topic.
pub fn is_wanted(conns: &Vec<Connection>, topic: Option<&String>, conn: u32) -> (r: bool)
    ensures
        r == wanted(connection_views(conns@), text(topic))(conn),
{
    match topic {
        None => true,
        Some(t) => match find_connection(conns, conn) {
            Some(i) => conns[i].topic == *t,
            None => false,
        },
    }
}

/// The number of messages that `counts` lists on the wanted connections;
/// `None` when it does not fit in 64 bits.
pub fn tally_counts(counts: &Vec<(u32, u32)>, conns: &Vec<Connection>, topic: Option<&String>) -> (r:
    Option<u64>)
    ensures
        match r {
            Some(v) => v == tally(counts@, wanted(connection_views(conns@), text(topic))),
            None => tally(counts@, wanted(connection_views(conns@), text(topic))) > u64::MAX,
        },
{
    let ghost want = wanted(connection_views(conns@), text(topic));
    let ghost term = count_term(counts@, want);
    let mut total: u64 = 0;
    let mut k: usize = 0;
    while k < counts.len()
        invariant
            0 <= k <= counts@.len(),
            want == wanted(connection_views(conns@), text(topic)),
            term == count_term(counts@, want),
            total == sum_to(term, k as int),
        decreases counts@.len() - k,
    {
        if is_wanted(conns, topic, counts[k].0) {
            match add_checked(total, counts[k].1 as u64) {
                Some(v) => {
                    total = v;
                },
                None => {
                    proof {
                        assert forall|j: int| 0 <= j < counts@.len() implies 0 <= #[trigger] term(
                            j,
                        ) by {}
                        lemma_sum_grows(term, k as int + 1, counts@.len() as int);
                    }
                    return None;
                },
            }
        }
        k += 1;
    }
    Some(total)
}

/// The number of messages that the chunks list on the wanted connections;
/// `None` when it does not fit in 64 bits.
pub fn count_messages(catalog: &Catalog, topic: Option<&String>) -> (r: Option<u64>)
    ensures
        match r {
            Some(v) => v == messages_where(
                catalog@.chunks,
                wanted(catalog@.connections, text(topic)),
            ),
            None => messages_where(catalog@.chunks, wanted(catalog@.connections, text(topic)))
                > u64::MAX,
        },
{
    let ghost want = wanted(catalog@.connections, text(topic));
    let ghost term = chunk_term(catalog@.chunks, want);
    proof {
        assert forall|j: int| 0 <= j < catalog@.chunks.len() implies 0 <= #[trigger] term(j) by {
            let counts = catalog@.chunks[j].info.counts;
            assert forall|k: int| 0 <= k < counts.len() implies 0 <= #[trigger] count_term(
                counts,
                want,
            )(k) by {}
            lemma_sum_grows(count_term(counts, want), 0, counts.len() as int);
        }
    }
    let mut total: u64 = 0;
    let mut i: usize = 0;
    while i < catalog.chunks.len()
        invariant
            0 <= i <= catalog.chunks@.len(),
            want == wanted(catalog@.connections, text(topic)),
            term == chunk_term(catalog@.chunks, want),
            forall|j: int| 0 <= j < catalog@.chunks.len() ==> 0 <= #[trigger] term(j),
            total == sum_to(term, i as int),
        decreases catalog.chunks@.len() - i,
    {
        assert(catalog@.chunks[i as int] == catalog.chunks@[i as int]@);
        let part: Option<u64> = tally_counts(
            &catalog.chunks[i].info.counts,
            &catalog.connections,
            topic,
        );
        let sum: Option<u64> = match part {
            Some(p) => add_checked(total, p),
            None => None,
        };
        match sum {
            Some(v) => {
                total = v;
            },
            None => {
                proof {
                    lemma_sum_grows(term, i as int + 1, catalog@.chunks.len() as int);
                    lemma_sum_grows(term, i as int, i as int);
                }
                return None;
            },
        }
        i += 1;
    }
    Some(total)
}

/// How much of a recording one codec compresses.
#[derive(Debug, Clone, PartialEq, Eq)]
pub struct CompressionInfo {
    /// The name of the codec.
    pub name: String,
    /// The number of chunks compressed with it.
    pub chunk_count: usize,
    /// The bytes those chunks take in the recording.
    pub total_compressed: u64,
    /// The bytes those chunks hold once decompressed.
    pub total_uncompressed: u64,
}

/// The number, the stored bytes and the decompressed bytes of the chunks
/// compressed with `name`, or of all chunks without a name; `None` when a
/// total does not fit in 64 bits.
pub fn compression_totals(chunks: &Vec<ChunkEntry>, name: Option<&String>) -> (r: Option<
    (usize, u64, u64),
>)
    ensures
        match r {
            Some((n, stored, held)) => {
                &&& n == sum_to(using_term(entry_views(chunks@), text(name)), chunks@.len() as int)
                &&& stored == sum_to(
                    compressed_term(entry_views(chunks@), text(name)),
                    chunks@.len() as int,
                )
                &&& held == sum_to(
                    uncompressed_term(entry_views(chunks@), text(name)),
                    chunks@.len() as int,
                )
            },
            None => sum_to(compressed_term(entry_views(chunks@), text(name)), chunks@.len() as int)
                > u64::MAX || sum_to(
                uncompressed_term(entry_views(chunks@), text(name)),
                chunks@.len() as int,
            ) > u64::MAX,
        },
{
    let ghost views = entry_views(chunks@);
    let ghost using = using_term(views, text(name));
    let ghost stored_term = compressed_term(views, text(name));
    let ghost held_term = uncompressed_term(views, text(name));
    let mut n: usize = 0;
    let mut stored: u64 = 0;
    let mut held: u64 = 0;
    let mut i: usize = 0;
    while i < chunks.len()
        invariant
            0 <= i <= chunks@.len(),
            views == entry_views(chunks@),
            using == using_term(views, text(name)),
            stored_term == compressed_term(views, text(name)),
            held_term == uncompressed_term(views, text(name)),
            n == sum_to(using, i as int),
            n <= i,
            stored == sum_to(stored_term, i as int),
            held == sum_to(held_term, i as int),
        decreases chunks@.len() - i,
    {
        let chunk = &chunks[i].chunk;
        assert(views[i as int].chunk == chunk@);
        let counted: bool = match name {
            None => true,
            Some(t) => chunk.compression == *t,
        };
        if counted {
            let width: u64 = if chunk.data.start <= chunk.data.end {
                (chunk.data.end - chunk.data.start) as u64
            } else {
                0
            };
            match (add_checked(stored, width), add_checked(held, chunk.size as u64)) {
                (Some(s), Some(h)) => {
                    n = n + 1;
                    stored = s;
                    held = h;
                },
                _ => {
                    proof {
                        assert forall|j: int| 0 <= j < chunks@.len() implies 0
                            <= #[trigger] stored_term(j) by {}
                        assert forall|j: int| 0 <= j < chunks@.len() implies 0
                            <= #[trigger] held_term(j) by {}
                        lemma_sum_grows(stored_term, i as int + 1, chunks@.len() as int);
                        lemma_sum_grows(held_term, i as int + 1, chunks@.len() as int);
                    }
                    return None;
                },
            }
        }
        i += 1;
    }
    Some((n, stored, held))
}

/// The earliest start and the latest end among the chunks' time ranges;
/// `None` without chunks.
pub fn time_bounds(chunks: &Vec<ChunkEntry>) -> (r: Option<(Time, Time)>)
    ensures
        match r {
            Some((first, last)) => earliest(entry_views(chunks@), chunks@.len() as int) == Some(
                first,
            ) && latest(entry_views(chunks@), chunks@.len() as int) == Some(last),
            None => chunks@.len() == 0,
        },
{
    let mut bounds: Option<(Time, Time)> = None;
    let mut i: usize = 0;
    while i < chunks.len()
        invariant
            0 <= i <= chunks@.len(),
            match bounds {
                Some((first, last)) => earliest(entry_views(chunks@), i as int) == Some(first)
                    && latest(entry_views(chunks@), i as int) == Some(last),
                None => i == 0,
            },
        decreases chunks@.len() - i,
    {
        let info = &chunks[i].info;
        assert(entry_views(chunks@)[i as int].info == info@);
        bounds = match bounds {
            None => Some((info.start_time, info.end_time)),
            Some((first, last)) => Some(
                (
                    if info.start_time.lt(&first) {
                        info.start_time
                    } else {
                        first
                    },
                    if last.lt(&info.end_time) {
                        info.end_time
                    } else {
                        last
                    },
                ),
            ),
        };
        i += 1;
    }
    bounds
}

} // verus!
