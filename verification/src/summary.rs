//! What a catalog sums up to: message counts, compression totals and time
//! bounds, stated over the catalog's view.

use crate::catalog::{topic_of, CatalogView, ChunkEntryView, ChunkView, ConnectionView};
use crate::time::Time;
use vstd::prelude::*;

verus! {

/// The sum of `f(0)` to `f(n - 1)`.
pub open spec fn sum_to(f: spec_fn(int) -> int, n: int) -> int
    decreases n,
{
    if n <= 0 {
        0
    } else {
        sum_to(f, n - 1) + f(n - 1)
    }
}

/// A sum of terms that are not negative does not shrink as it goes on.
pub proof fn lemma_sum_grows(f: spec_fn(int) -> int, m: int, n: int)
    requires
        0 <= m <= n,
        forall|k: int| 0 <= k < n ==> 0 <= #[trigger] f(k),
    ensures
        0 <= sum_to(f, m) <= sum_to(f, n),
    decreases n,
{
    if m < n {
        lemma_sum_grows(f, m, n - 1);
    } else if n > 0 {
        lemma_sum_grows(f, m - 1, n - 1);
    }
}

/// Of two sums, the one with the smaller terms is the smaller.
pub proof fn lemma_sum_below(f: spec_fn(int) -> int, g: spec_fn(int) -> int, n: int)
    requires
        forall|k: int| 0 <= k < n ==> #[trigger] f(k) <= g(k),
    ensures
        sum_to(f, n) <= sum_to(g, n),
    decreases n,
{
    if n > 0 {
        lemma_sum_below(f, g, n - 1);
    }
}

/// Sums of the same terms are the same.
pub proof fn lemma_sum_same(f: spec_fn(int) -> int, g: spec_fn(int) -> int, n: int)
    requires
        forall|k: int| 0 <= k < n ==> #[trigger] f(k) == g(k),
    ensures
        sum_to(f, n) == sum_to(g, n),
    decreases n,
{
    if n > 0 {
        lemma_sum_same(f, g, n - 1);
    }
}

/// The connections whose messages are counted: all of them, or those on
/// `topic`.
pub open spec fn wanted(conns: Seq<ConnectionView>, topic: Option<Seq<char>>) -> spec_fn(
    u32,
) -> bool {
    |c: u32|
        match topic {
            None => true,
            Some(t) => topic_of(conns, c) == Some(t),
        }
}

/// Entry `k` of `counts`, where its connection is wanted.
pub open spec fn count_term(counts: Seq<(u32, u32)>, want: spec_fn(u32) -> bool) -> spec_fn(
    int,
) -> int {
    |k: int|
        if want(counts[k].0) {
            counts[k].1 as int
        } else {
            0
        }
}

/// The number of messages that `counts` lists on wanted connections.
pub open spec fn tally(counts: Seq<(u32, u32)>, want: spec_fn(u32) -> bool) -> int {
    sum_to(count_term(counts, want), counts.len() as int)
}

/// The tally of chunk `i`.
pub open spec fn chunk_term(chunks: Seq<ChunkEntryView>, want: spec_fn(u32) -> bool) -> spec_fn(
    int,
) -> int {
    |i: int| tally(chunks[i].info.counts, want)
}

/// The number of messages that the chunks list on wanted connections.
pub open spec fn messages_where(chunks: Seq<ChunkEntryView>, want: spec_fn(u32) -> bool) -> int {
    sum_to(chunk_term(chunks, want), chunks.len() as int)
}

/// Whether a chunk is compressed with the codec called `name`; with no name,
/// every chunk is meant.
pub open spec fn uses(chunk: ChunkView, name: Option<Seq<char>>) -> bool {
    match name {
        None => true,
        Some(n) => chunk.compression == n,
    }
}

/// One for each chunk that uses `name`.
pub open spec fn using_term(chunks: Seq<ChunkEntryView>, name: Option<Seq<char>>) -> spec_fn(
    int,
) -> int {
    |i: int|
        if uses(chunks[i].chunk, name) {
            1int
        } else {
            0int
        }
}

/// The stored length of each chunk that uses `name`.
pub open spec fn compressed_term(chunks: Seq<ChunkEntryView>, name: Option<Seq<char>>) -> spec_fn(
    int,
) -> int {
    |i: int|
        if uses(chunks[i].chunk, name) && chunks[i].chunk.data.start <= chunks[i].chunk.data.end {
            chunks[i].chunk.data.end - chunks[i].chunk.data.start
        } else {
            0int
        }
}

/// The decompressed length of each chunk that uses `name`.
pub open spec fn uncompressed_term(chunks: Seq<ChunkEntryView>, name: Option<Seq<char>>) -> spec_fn(
    int,
) -> int {
    |i: int|
        if uses(chunks[i].chunk, name) {
            chunks[i].chunk.size as int
        } else {
            0int
        }
}

/// The earliest start time among the first `n` chunks.
pub open spec fn earliest(chunks: Seq<ChunkEntryView>, n: int) -> Option<Time>
    decreases n,
{
    if n <= 0 {
        None
    } else {
        match earliest(chunks, n - 1) {
            None => Some(chunks[n - 1].info.start_time),
            Some(t) => Some(
                if chunks[n - 1].info.start_time.nanos() < t.nanos() {
                    chunks[n - 1].info.start_time
                } else {
                    t
                },
            ),
        }
    }
}

/// The latest end time among the first `n` chunks.
pub open spec fn latest(chunks: Seq<ChunkEntryView>, n: int) -> Option<Time>
    decreases n,
{
    if n <= 0 {
        None
    } else {
        match latest(chunks, n - 1) {
            None => Some(chunks[n - 1].info.end_time),
            Some(t) => Some(
                if chunks[n - 1].info.end_time.nanos() > t.nanos() {
                    chunks[n - 1].info.end_time
                } else {
                    t
                },
            ),
        }
    }
}

/// The topic of each connection.
pub open spec fn topic_texts(conns: Seq<ConnectionView>) -> Seq<Seq<char>> {
    Seq::new(conns.len(), |i: int| conns[i].topic)
}

/// The message type of each connection.
pub open spec fn type_texts(conns: Seq<ConnectionView>) -> Seq<Seq<char>> {
    Seq::new(conns.len(), |i: int| conns[i].data_type)
}

/// The codec name of each chunk.
pub open spec fn codec_texts(chunks: Seq<ChunkEntryView>) -> Seq<Seq<char>> {
    Seq::new(chunks.len(), |i: int| chunks[i].chunk.compression)
}

/// The position of the first connection on `topic`, searching from `from`.
pub open spec fn first_on(conns: Seq<ConnectionView>, topic: Seq<char>, from: int) -> Option<int>
    decreases conns.len() - from,
{
    if from < 0 || from >= conns.len() {
        None
    } else if conns[from].topic == topic {
        Some(from)
    } else {
        first_on(conns, topic, from + 1)
    }
}

/// The messages on one topic are among all messages.
pub proof fn lemma_topic_count_below(cat: CatalogView, topic: Seq<char>)
    ensures
        0 <= cat.topic_count(topic) <= cat.message_count(),
{
    let some = wanted(cat.connections, Some(topic));
    let all = wanted(cat.connections, None);
    assert forall|i: int| 0 <= i < cat.chunks.len() implies 0 <= #[trigger] chunk_term(
        cat.chunks,
        some,
    )(i) <= chunk_term(cat.chunks, all)(i) by {
        let counts = cat.chunks[i].info.counts;
        assert forall|k: int| 0 <= k < counts.len() implies 0 <= #[trigger] count_term(
            counts,
            some,
        )(k) <= count_term(counts, all)(k) by {}
        lemma_sum_below(count_term(counts, some), count_term(counts, all), counts.len() as int);
        lemma_sum_grows(count_term(counts, some), 0, counts.len() as int);
    }
    lemma_sum_below(
        chunk_term(cat.chunks, some),
        chunk_term(cat.chunks, all),
        cat.chunks.len() as int,
    );
    lemma_sum_grows(chunk_term(cat.chunks, some), 0, cat.chunks.len() as int);
}

/// What one codec compresses is among what all codecs compress.
pub proof fn lemma_codec_bytes_below(cat: CatalogView, name: Seq<char>)
    ensures
        0 <= cat.chunks_using(Some(name)) <= cat.chunks.len(),
        0 <= cat.compressed_bytes(Some(name)) <= cat.compressed_bytes(None),
        0 <= cat.uncompressed_bytes(Some(name)) <= cat.uncompressed_bytes(None),
{
    let n = cat.chunks.len() as int;
    let one = |i: int| 1int;
    assert forall|i: int| 0 <= i < n implies 0 <= #[trigger] using_term(cat.chunks, Some(name))(i)
        <= one(i) by {}
    lemma_sum_below(using_term(cat.chunks, Some(name)), one, n);
    lemma_sum_grows(using_term(cat.chunks, Some(name)), 0, n);
    lemma_sum_ones(one, n);
    assert forall|i: int| 0 <= i < n implies 0 <= #[trigger] compressed_term(
        cat.chunks,
        Some(name),
    )(i) <= compressed_term(cat.chunks, None)(i) by {}
    lemma_sum_below(compressed_term(cat.chunks, Some(name)), compressed_term(cat.chunks, None), n);
    lemma_sum_grows(compressed_term(cat.chunks, Some(name)), 0, n);
    assert forall|i: int| 0 <= i < n implies 0 <= #[trigger] uncompressed_term(
        cat.chunks,
        Some(name),
    )(i) <= uncompressed_term(cat.chunks, None)(i) by {}
    lemma_sum_below(
        uncompressed_term(cat.chunks, Some(name)),
        uncompressed_term(cat.chunks, None),
        n,
    );
    lemma_sum_grows(uncompressed_term(cat.chunks, Some(name)), 0, n);
}

/// A sum of `n` ones is `n`.
pub proof fn lemma_sum_ones(f: spec_fn(int) -> int, n: int)
    requires
        0 <= n,
        forall|k: int| 0 <= k < n ==> #[trigger] f(k) == 1,
    ensures
        sum_to(f, n) == n,
    decreases n,
{
    if n > 0 {
        lemma_sum_ones(f, n - 1);
    }
}

impl CatalogView {
    /// The number of messages, going by the counts of all chunks.
    pub open spec fn message_count(self) -> int {
        messages_where(self.chunks, wanted(self.connections, None))
    }

    /// The number of messages on `topic`, whichever connections carry it.
    pub open spec fn topic_count(self, topic: Seq<char>) -> int {
        messages_where(self.chunks, wanted(self.connections, Some(topic)))
    }

    /// The number of chunks compressed with the codec called `name`.
    pub open spec fn chunks_using(self, name: Option<Seq<char>>) -> int {
        sum_to(using_term(self.chunks, name), self.chunks.len() as int)
    }

    /// The stored bytes of the chunks compressed with `name`.
    pub open spec fn compressed_bytes(self, name: Option<Seq<char>>) -> int {
        sum_to(compressed_term(self.chunks, name), self.chunks.len() as int)
    }

    /// The decompressed bytes of the chunks compressed with `name`.
    pub open spec fn uncompressed_bytes(self, name: Option<Seq<char>>) -> int {
        sum_to(uncompressed_term(self.chunks, name), self.chunks.len() as int)
    }

    /// The time of the earliest message, going by the chunks' time ranges;
    /// `None` without chunks.
    pub open spec fn start_time(self) -> Option<Time> {
        earliest(self.chunks, self.chunks.len() as int)
    }

    /// The time of the latest message, going by the chunks' time ranges;
    /// `None` without chunks.
    pub open spec fn end_time(self) -> Option<Time> {
        latest(self.chunks, self.chunks.len() as int)
    }

    /// The topics of the connections.
    pub open spec fn topics(self) -> Set<Seq<char>> {
        Set::new(|t: Seq<char>| topic_texts(self.connections).contains(t))
    }

    /// The message types of the connections.
    pub open spec fn types(self) -> Set<Seq<char>> {
        Set::new(|t: Seq<char>| type_texts(self.connections).contains(t))
    }

    /// The names of the codecs that the chunks are compressed with.
    pub open spec fn codecs(self) -> Set<Seq<char>> {
        Set::new(|n: Seq<char>| codec_texts(self.chunks).contains(n))
    }

    /// The message type of the first connection on `topic`.
    pub open spec fn type_of(self, topic: Seq<char>) -> Option<Seq<char>> {
        match first_on(self.connections, topic, 0) {
            Some(i) => Some(self.connections[i].data_type),
            None => None,
        }
    }

    /// The message counts and the byte totals fit in 64 bits.
    pub open spec fn sums_fit(self) -> bool {
        &&& self.message_count() <= u64::MAX
        &&& self.compressed_bytes(None) <= u64::MAX
        &&& self.uncompressed_bytes(None) <= u64::MAX
    }
}

} // verus!
