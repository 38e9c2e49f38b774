//! What holds of every recording: the messages that a query yields, against
//! what the catalog says.

use crate::bag::{chunk_yield, messages, remaining};
use crate::catalog::{topic_of, CatalogView, ConnectionView};
use crate::chunk::chunk_content;
use crate::counting::{keyed_sum, keyed_term, lemma_keyed_agree, lemma_sum_zero, only};
use crate::message::{yield_from, Message, Yield};
use crate::query::{carries, QueryView};
use crate::record::{record_at, Record};
use crate::summary::{
    chunk_term, count_term, lemma_sum_grows, lemma_sum_same, sum_to, tally, wanted,
};
use crate::time::Time;
use vstd::prelude::*;

verus! {

/// The messages that meet `q`.
pub open spec fn meets(q: QueryView) -> spec_fn(Message) -> bool {
    |m: Message| q.matches(m.topic, m.time)
}

/// Filtering one message keeps it or drops it.
pub proof fn lemma_filter_one(m: Message, p: spec_fn(Message) -> bool)
    ensures
        seq![m].filter(p) == if p(m) {
            seq![m]
        } else {
            Seq::<Message>::empty()
        },
{
    reveal_with_fuel(Seq::filter, 2);
    assert(seq![m].drop_last() =~= Seq::<Message>::empty());
    assert(Seq::<Message>::empty().push(m) =~= seq![m]);
}

/// Filtering a run that begins with `m` filters `m` and the rest.
pub proof fn lemma_filter_after(m: Message, rest: Seq<Message>, p: spec_fn(Message) -> bool)
    ensures
        (seq![m] + rest).filter(p) == if p(m) {
            seq![m] + rest.filter(p)
        } else {
            rest.filter(p)
        },
{
    lemma_filter_one(m, p);
    Seq::filter_distributes_over_add(seq![m], rest, p);
    if !p(m) {
        assert(Seq::<Message>::empty() + rest.filter(p) =~= rest.filter(p));
    }
}

/// Every message that a chunk yields meets the query, and is on the topic
/// of its connection.
pub proof fn lemma_yield_meets(c: Seq<u8>, pos: int, conns: Seq<ConnectionView>, q: QueryView)
    ensures
        forall|k: int|
            0 <= k < yield_from(c, pos, conns, q).msgs.len() ==> {
                let m = #[trigger] yield_from(c, pos, conns, q).msgs[k];
                q.matches(m.topic, m.time) && topic_of(conns, m.conn) == Some(m.topic)
            },
    decreases c.len() - pos,
{
    if pos < c.len() {
        match record_at(c, pos) {
            None => {},
            Some(p) => {
                if p.next > pos {
                    lemma_yield_meets(c, p.next as int, conns, q);
                }
            },
        }
    }
}

/// Where a chunk's content yields every message without a fault, a query
/// yields those of them that meet it, in the same order.
pub proof fn lemma_yield_filters(c: Seq<u8>, pos: int, conns: Seq<ConnectionView>, q: QueryView)
    requires
        yield_from(c, pos, conns, QueryView::all()).fault is None,
    ensures
        yield_from(c, pos, conns, q).fault is None,
        yield_from(c, pos, conns, q).msgs == yield_from(c, pos, conns, QueryView::all()).msgs.filter(
            meets(q),
        ),
    decreases c.len() - pos,
{
    let all = QueryView::all();
    if pos >= c.len() {
        reveal_with_fuel(Seq::filter, 1);
    } else {
        let p = record_at(c, pos)->0;
        lemma_yield_filters(c, p.next as int, conns, q);
        let rest = yield_from(c, p.next as int, conns, all).msgs;
        match p.record {
            Record::MessageData { conn, time, data } => {
                let topic = topic_of(conns, conn)->0;
                let m = Message { conn, topic, time, data: data.of(c) };
                lemma_filter_after(m, rest, meets(q));
            },
            _ => {},
        }
    }
}

/// Every message that is still to come from position `pos` of chunk `i` on
/// meets the query.
pub proof fn lemma_remaining_meets(s: Seq<u8>, cat: CatalogView, q: QueryView, i: int, pos: int)
    ensures
        forall|k: int|
            0 <= k < remaining(s, cat, q, i, pos).msgs.len() ==> {
                let m = #[trigger] remaining(s, cat, q, i, pos).msgs[k];
                q.matches(m.topic, m.time) && topic_of(cat.connections, m.conn) == Some(m.topic)
            },
    decreases cat.chunks.len() - i,
{
    if 0 <= i < cat.chunks.len() {
        lemma_remaining_meets(s, cat, q, i + 1, 0);
        match chunk_content(s, cat.chunks[i].chunk) {
            Ok(content) => {
                lemma_yield_meets(content, pos, cat.connections, q);
            },
            Err(_) => {},
        }
    }
}

/// Every message that a query yields meets the query: it is on one of the
/// query's topics, and its time lies in the query's range, both ends
/// included.
pub proof fn law_messages_meet_query(s: Seq<u8>, cat: CatalogView, q: QueryView)
    ensures
        forall|k: int|
            0 <= k < messages(s, cat, q).msgs.len() ==> {
                let m = #[trigger] messages(s, cat, q).msgs[k];
                q.on_topic(m.topic) && q.in_range(m.time)
            },
{
    lemma_remaining_meets(s, cat, q, 0, 0);
}

/// The connection of message `k`.
pub open spec fn msg_key(msgs: Seq<Message>) -> spec_fn(int) -> u32 {
    |k: int| msgs[k].conn
}

/// One for each message.
pub open spec fn unit() -> spec_fn(int) -> int {
    |k: int| 1int
}

/// The connection of entry `k` of a chunk's counts.
pub open spec fn count_key(counts: Seq<(u32, u32)>) -> spec_fn(int) -> u32 {
    |k: int| counts[k].0
}

/// The number of messages in entry `k` of a chunk's counts.
pub open spec fn count_weight(counts: Seq<(u32, u32)>) -> spec_fn(int) -> int {
    |k: int| counts[k].1 as int
}

/// The number of messages of `msgs` that came on wanted connections.
pub open spec fn carried(msgs: Seq<Message>, want: spec_fn(u32) -> bool) -> int {
    keyed_sum(msg_key(msgs), unit(), msgs.len() as int, want)
}

/// All messages that chunk `i` holds, whatever the index says of it.
pub open spec fn chunk_messages(s: Seq<u8>, cat: CatalogView, i: int) -> Yield {
    match chunk_content(s, cat.chunks[i].chunk) {
        Err(f) => Yield::failed(f),
        Ok(content) => yield_from(content, 0, cat.connections, QueryView::all()),
    }
}

/// Whether the catalog says of chunk `i` what the chunk holds: the chunk
/// reads without a fault, the times of its messages lie in the chunk's time
/// range, and for each connection the counts add up to the number of its
/// messages in the chunk.
pub open spec fn chunk_faithful(s: Seq<u8>, cat: CatalogView, i: int) -> bool {
    let found = chunk_messages(s, cat, i);
    let info = cat.chunks[i].info;
    &&& found.fault is None
    &&& forall|k: int|
        0 <= k < found.msgs.len() ==> info.start_time.nanos() <= (#[trigger] found.msgs[k]).time.nanos()
            <= info.end_time.nanos()
    &&& forall|c: u32| #[trigger] tally(info.counts, only(c)) == carried(found.msgs, only(c))
}

/// Whether the catalog says of every chunk what the chunk holds.
pub open spec fn faithful(s: Seq<u8>, cat: CatalogView) -> bool {
    forall|i: int| 0 <= i < cat.chunks.len() ==> #[trigger] chunk_faithful(s, cat, i)
}

/// A tally is a sum by key.
pub proof fn lemma_tally_keyed(counts: Seq<(u32, u32)>, want: spec_fn(u32) -> bool)
    ensures
        tally(counts, want) == keyed_sum(
            count_key(counts),
            count_weight(counts),
            counts.len() as int,
            want,
        ),
{
    let a = count_term(counts, want);
    let b = keyed_term(count_key(counts), count_weight(counts), want);
    assert forall|k: int| 0 <= k < counts.len() implies #[trigger] a(k) == b(k) by {}
    lemma_sum_same(a, b, counts.len() as int);
}

/// A sum of terms that are not negative is at least each of its terms.
pub proof fn lemma_sum_has(f: spec_fn(int) -> int, k: int, n: int)
    requires
        0 <= k < n,
        forall|j: int| 0 <= j < n ==> 0 <= #[trigger] f(j),
    ensures
        f(k) <= sum_to(f, n),
{
    lemma_sum_grows(f, k + 1, n);
    lemma_sum_grows(f, k, k);
}

/// Where the catalog is faithful to a chunk, any set of connections carries
/// as many of the chunk's messages as the chunk's counts say.
pub proof fn lemma_chunk_counts(s: Seq<u8>, cat: CatalogView, i: int, want: spec_fn(u32) -> bool)
    requires
        0 <= i < cat.chunks.len(),
        chunk_faithful(s, cat, i),
    ensures
        tally(cat.chunks[i].info.counts, want) == carried(chunk_messages(s, cat, i).msgs, want),
{
    let counts = cat.chunks[i].info.counts;
    let msgs = chunk_messages(s, cat, i).msgs;
    assert forall|c: u32| #[trigger]
        keyed_sum(count_key(counts), count_weight(counts), counts.len() as int, only(c))
            == keyed_sum(msg_key(msgs), unit(), msgs.len() as int, only(c)) by {
        lemma_tally_keyed(counts, only(c));
        assert(tally(counts, only(c)) == carried(msgs, only(c)));
    }
    lemma_keyed_agree(
        count_key(counts),
        count_weight(counts),
        counts.len() as int,
        msg_key(msgs),
        unit(),
        msgs.len() as int,
        want,
    );
    lemma_tally_keyed(counts, want);
}

/// A chunk that a query does not select holds no message that meets the
/// query, where the catalog is faithful to the chunk.
pub proof fn lemma_unselected_chunk(s: Seq<u8>, cat: CatalogView, q: QueryView, i: int)
    requires
        0 <= i < cat.chunks.len(),
        chunk_faithful(s, cat, i),
        !q.selects(cat.chunks[i].info, cat.connections),
    ensures
        chunk_messages(s, cat, i).msgs.filter(meets(q)) == Seq::<Message>::empty(),
{
    let msgs = chunk_messages(s, cat, i).msgs;
    let info = cat.chunks[i].info;
    let conns = cat.connections;
    let content = chunk_content(s, cat.chunks[i].chunk)->Ok_0;
    lemma_yield_meets(content, 0, conns, QueryView::all());
    assert forall|k: int| 0 <= k < msgs.len() implies !meets(q)(#[trigger] msgs[k]) by {
        let m = msgs[k];
        if q.on_topic(m.topic) && q.in_range(m.time) {
            // The time ranges meet, so it is the topics that rule the chunk out.
            let topics = q.topics->0;
            let one = keyed_term(msg_key(msgs), unit(), only(m.conn));
            assert forall|j: int| 0 <= j < msgs.len() implies 0 <= #[trigger] one(j) by {}
            lemma_sum_has(one, k, msgs.len() as int);
            lemma_chunk_counts(s, cat, i, only(m.conn));
            let listed = count_term(info.counts, only(m.conn));
            assert forall|j: int| 0 <= j < info.counts.len() implies #[trigger] listed(j) == 0 by {
                if info.counts[j].0 == m.conn {
                    assert(carries(info.counts[j], conns, topics));
                }
            }
            lemma_sum_zero(listed, info.counts.len() as int);
        }
    }
    let kept = msgs.filter(meets(q));
    if kept.len() > 0 {
        msgs.lemma_filter_pred(meets(q), 0);
        assert(kept.contains(kept[0]));
        msgs.lemma_filter_contains_rev(meets(q), kept[0]);
    }
    assert(kept =~= Seq::<Message>::empty());
}

/// Where the catalog is faithful, pruning loses nothing: from chunk `i` on,
/// a query yields the messages of those chunks that meet it, in their
/// order, and no fault.
pub proof fn lemma_remaining_filters(s: Seq<u8>, cat: CatalogView, q: QueryView, i: int)
    requires
        faithful(s, cat),
        0 <= i <= cat.chunks.len(),
    ensures
        remaining(s, cat, QueryView::all(), i, 0).fault is None,
        remaining(s, cat, q, i, 0).fault is None,
        remaining(s, cat, q, i, 0).msgs == remaining(s, cat, QueryView::all(), i, 0).msgs.filter(
            meets(q),
        ),
    decreases cat.chunks.len() - i,
{
    let all = QueryView::all();
    if i >= cat.chunks.len() {
        reveal_with_fuel(Seq::filter, 1);
    } else {
        lemma_remaining_filters(s, cat, q, i + 1);
        assert(chunk_faithful(s, cat, i));
        let here = chunk_messages(s, cat, i);
        assert(chunk_yield(s, cat, all, i, 0) == here);
        let rest = remaining(s, cat, all, i + 1, 0);
        if q.selects(cat.chunks[i].info, cat.connections) {
            let content = chunk_content(s, cat.chunks[i].chunk)->Ok_0;
            lemma_yield_filters(content, 0, cat.connections, q);
        } else {
            lemma_unselected_chunk(s, cat, q, i);
        }
        Seq::filter_distributes_over_add(here.msgs, rest.msgs, meets(q));
    }
}

/// Where the catalog is faithful, a query yields exactly the messages of
/// the recording that meet it, in the order of the recording, and no fault:
/// the chunks that the query passes over hold none of them.
pub proof fn law_pruning_loses_nothing(s: Seq<u8>, cat: CatalogView, q: QueryView)
    requires
        faithful(s, cat),
    ensures
        messages(s, cat, q).fault is None,
        messages(s, cat, q).msgs == messages(s, cat, QueryView::all()).msgs.filter(meets(q)),
{
    lemma_remaining_filters(s, cat, q, 0);
}

/// Where the catalog is faithful to a chunk, a query yields of that chunk
/// the messages that meet it, whether it selects the chunk or not.
pub proof fn lemma_chunk_filters(s: Seq<u8>, cat: CatalogView, q: QueryView, i: int)
    requires
        0 <= i < cat.chunks.len(),
        chunk_faithful(s, cat, i),
    ensures
        chunk_yield(s, cat, q, i, 0).fault is None,
        chunk_yield(s, cat, q, i, 0).msgs == chunk_messages(s, cat, i).msgs.filter(meets(q)),
{
    if q.selects(cat.chunks[i].info, cat.connections) {
        let content = chunk_content(s, cat.chunks[i].chunk)->Ok_0;
        lemma_yield_filters(content, 0, cat.connections, q);
    } else {
        lemma_unselected_chunk(s, cat, q, i);
    }
}

/// Where keeping a message depends on its connection alone, as many
/// messages are kept as came on the wanted connections.
pub proof fn lemma_filter_counts(
    msgs: Seq<Message>,
    keep: spec_fn(Message) -> bool,
    want: spec_fn(u32) -> bool,
)
    requires
        forall|k: int| 0 <= k < msgs.len() ==> keep(#[trigger] msgs[k]) == want(msgs[k].conn),
    ensures
        msgs.filter(keep).len() == carried(msgs, want),
    decreases msgs.len(),
{
    reveal(Seq::filter);
    if msgs.len() > 0 {
        let front = msgs.drop_last();
        lemma_filter_counts(front, keep, want);
        let a = keyed_term(msg_key(front), unit(), want);
        let b = keyed_term(msg_key(msgs), unit(), want);
        assert forall|k: int| 0 <= k < front.len() implies #[trigger] a(k) == b(k) by {}
        lemma_sum_same(a, b, front.len() as int);
    }
}

/// Where the catalog is faithful and meeting the query depends on the
/// connection alone, the query yields from chunk `i` on as many messages as
/// the counts of those chunks say.
pub proof fn lemma_remaining_counts(
    s: Seq<u8>,
    cat: CatalogView,
    q: QueryView,
    want: spec_fn(u32) -> bool,
    i: int,
)
    requires
        faithful(s, cat),
        0 <= i <= cat.chunks.len(),
        forall|m: Message|
            topic_of(cat.connections, m.conn) == Some(m.topic) ==> #[trigger] meets(q)(m) == want(
                m.conn,
            ),
    ensures
        remaining(s, cat, q, i, 0).fault is None,
        remaining(s, cat, q, i, 0).msgs.len() == sum_to(
            chunk_term(cat.chunks, want),
            cat.chunks.len() as int,
        ) - sum_to(chunk_term(cat.chunks, want), i),
    decreases cat.chunks.len() - i,
{
    lemma_remaining_filters(s, cat, q, i);
    if i < cat.chunks.len() {
        lemma_remaining_counts(s, cat, q, want, i + 1);
        assert(chunk_faithful(s, cat, i));
        lemma_chunk_filters(s, cat, q, i);
        let here = chunk_messages(s, cat, i).msgs;
        let content = chunk_content(s, cat.chunks[i].chunk)->Ok_0;
        lemma_yield_meets(content, 0, cat.connections, QueryView::all());
        assert forall|k: int| 0 <= k < here.len() implies meets(q)(#[trigger] here[k]) == want(
            here[k].conn,
        ) by {}
        lemma_filter_counts(here, meets(q), want);
        lemma_chunk_counts(s, cat, i, want);
        assert(sum_to(chunk_term(cat.chunks, want), i + 1) == sum_to(
            chunk_term(cat.chunks, want),
            i,
        ) + chunk_term(cat.chunks, want)(i));
    }
}

/// Where the catalog is faithful, reading every message yields as many
/// messages as the catalog counts, and no fault.
pub proof fn law_all_messages_counted(s: Seq<u8>, cat: CatalogView)
    requires
        faithful(s, cat),
    ensures
        messages(s, cat, QueryView::all()).fault is None,
        messages(s, cat, QueryView::all()).msgs.len() == cat.message_count(),
{
    lemma_remaining_counts(s, cat, QueryView::all(), wanted(cat.connections, None), 0);
}

/// Where the catalog is faithful, a query for one topic and all of time
/// yields as many messages as the catalog counts on that topic.
pub proof fn law_topic_messages_counted(
    s: Seq<u8>,
    cat: CatalogView,
    q: QueryView,
    topic: Seq<char>,
)
    requires
        faithful(s, cat),
        q.range is None,
        q.topics is Some,
        forall|t: Seq<char>| q.topics->0.contains(t) <==> t == topic,
    ensures
        messages(s, cat, q).fault is None,
        messages(s, cat, q).msgs.len() == cat.topic_count(topic),
{
    lemma_remaining_counts(s, cat, q, wanted(cat.connections, Some(topic)), 0);
}

/// Whether the times of the messages do not go back.
pub open spec fn sorted_by_time(msgs: Seq<Message>) -> bool {
    forall|a: int, b: int|
        0 <= a <= b < msgs.len() ==> (#[trigger] msgs[a]).time.nanos() <= (#[trigger] msgs[b]).time.nanos()
}

/// Whether the recording is written in time order: the messages of each
/// chunk are, and no chunk starts before the chunks before it have ended.
pub open spec fn in_time_order(s: Seq<u8>, cat: CatalogView) -> bool {
    &&& forall|i: int|
        0 <= i < cat.chunks.len() ==> sorted_by_time(#[trigger] chunk_messages(s, cat, i).msgs)
    &&& forall|i: int, j: int|
        0 <= i < j < cat.chunks.len() ==> (#[trigger] cat.chunks[i]).info.end_time.nanos() <= (
        #[trigger] cat.chunks[j]).info.start_time.nanos()
}

/// In a recording written in time order, the messages from chunk `i` on are
/// in time order, and none is earlier than the end of a chunk before `i`.
pub proof fn lemma_remaining_sorted(s: Seq<u8>, cat: CatalogView, i: int)
    requires
        faithful(s, cat),
        in_time_order(s, cat),
        0 <= i <= cat.chunks.len(),
    ensures
        sorted_by_time(remaining(s, cat, QueryView::all(), i, 0).msgs),
        forall|k: int, j: int|
            0 <= k < remaining(s, cat, QueryView::all(), i, 0).msgs.len() && 0 <= j < i ==> (
            #[trigger] cat.chunks[j]).info.end_time.nanos() <= (#[trigger] remaining(
                s,
                cat,
                QueryView::all(),
                i,
                0,
            ).msgs[k]).time.nanos(),
    decreases cat.chunks.len() - i,
{
    let all = QueryView::all();
    if i < cat.chunks.len() {
        lemma_remaining_sorted(s, cat, i + 1);
        lemma_remaining_filters(s, cat, all, i + 1);
        assert(chunk_faithful(s, cat, i));
        let here = chunk_messages(s, cat, i).msgs;
        assert(chunk_yield(s, cat, all, i, 0) == chunk_messages(s, cat, i));
        assert(sorted_by_time(here));
        let rest = remaining(s, cat, all, i + 1, 0).msgs;
        let whole = remaining(s, cat, all, i, 0).msgs;
        assert(whole == here + rest);
        assert forall|k: int, j: int| 0 <= k < whole.len() && 0 <= j < i implies (
        #[trigger] cat.chunks[j]).info.end_time.nanos() <= (#[trigger] whole[k]).time.nanos() by {
            if k < here.len() {
                assert(whole[k] == here[k]);
                assert(cat.chunks[j].info.end_time.nanos() <= cat.chunks[i].info.start_time.nanos());
            } else {
                assert(whole[k] == rest[k - here.len()]);
            }
        }
        assert forall|a: int, b: int| 0 <= a <= b < whole.len() implies (#[trigger] whole[a]).time.nanos()
            <= (#[trigger] whole[b]).time.nanos() by {
            if b < here.len() {
                assert(whole[a] == here[a] && whole[b] == here[b]);
            } else if a >= here.len() {
                assert(whole[a] == rest[a - here.len()] && whole[b] == rest[b - here.len()]);
            } else {
                assert(whole[a] == here[a] && whole[b] == rest[b - here.len()]);
                assert(here[a].time.nanos() <= cat.chunks[i].info.end_time.nanos());
            }
        }
    }
}

/// Messages in time order stay in time order when some are left out.
pub proof fn lemma_filter_sorted(msgs: Seq<Message>, keep: spec_fn(Message) -> bool)
    requires
        sorted_by_time(msgs),
    ensures
        sorted_by_time(msgs.filter(keep)),
    decreases msgs.len(),
{
    reveal(Seq::filter);
    if msgs.len() > 0 {
        let front = msgs.drop_last();
        let last = msgs.last();
        assert forall|a: int, b: int| 0 <= a <= b < front.len() implies (#[trigger] front[a]).time.nanos()
            <= (#[trigger] front[b]).time.nanos() by {
            assert(front[a] == msgs[a] && front[b] == msgs[b]);
        }
        lemma_filter_sorted(front, keep);
        let kept = front.filter(keep);
        assert forall|a: int| 0 <= a < kept.len() implies (#[trigger] kept[a]).time.nanos()
            <= last.time.nanos() by {
            assert(kept.contains(kept[a]));
            front.lemma_filter_contains_rev(keep, kept[a]);
            let k = choose|k: int| 0 <= k < front.len() && front[k] == kept[a];
            assert(msgs[k] == kept[a]);
            assert(msgs[msgs.len() - 1] == last);
        }
    }
}

/// In a faithful recording written in time order, every query yields its
/// messages in time order.
pub proof fn law_messages_in_time_order(s: Seq<u8>, cat: CatalogView, q: QueryView)
    requires
        faithful(s, cat),
        in_time_order(s, cat),
    ensures
        sorted_by_time(messages(s, cat, q).msgs),
{
    lemma_remaining_sorted(s, cat, 0);
    law_pruning_loses_nothing(s, cat, q);
    lemma_filter_sorted(messages(s, cat, QueryView::all()).msgs, meets(q));
}

/// Where every kept message is kept by one of two filters and by one only,
/// the two filters share out what is kept.
pub proof fn lemma_filter_splits(
    msgs: Seq<Message>,
    keep: spec_fn(Message) -> bool,
    left: spec_fn(Message) -> bool,
    right: spec_fn(Message) -> bool,
)
    requires
        forall|m: Message| #[trigger] keep(m) == (left(m) || right(m)),
        forall|m: Message| !(#[trigger] left(m) && right(m)),
    ensures
        msgs.filter(keep).to_multiset() == msgs.filter(left).to_multiset().add(
            msgs.filter(right).to_multiset(),
        ),
    decreases msgs.len(),
{
    broadcast use vstd::multiset::group_multiset_axioms;

    reveal(Seq::filter);
    if msgs.len() == 0 {
        vstd::seq_lib::to_multiset_len(msgs);
        vstd::multiset::lemma_multiset_empty_len(msgs.to_multiset());
        assert(msgs.filter(keep).to_multiset() =~= msgs.filter(left).to_multiset().add(
            msgs.filter(right).to_multiset(),
        ));
    } else {
        let front = msgs.drop_last();
        let m = msgs.last();
        lemma_filter_splits(front, keep, left, right);
        let kept = front.filter(keep).to_multiset();
        let lefts = front.filter(left).to_multiset();
        let rights = front.filter(right).to_multiset();
        vstd::seq_lib::to_multiset_build(front.filter(keep), m);
        vstd::seq_lib::to_multiset_build(front.filter(left), m);
        vstd::seq_lib::to_multiset_build(front.filter(right), m);
        assert(keep(m) == (left(m) || right(m)));
        assert(!(left(m) && right(m)));
        if left(m) {
            assert(kept.insert(m) =~= lefts.insert(m).add(rights));
        } else if right(m) {
            assert(kept.insert(m) =~= lefts.add(rights.insert(m)));
        }
    }
}

/// Where the catalog is faithful, two time ranges that lie side by side
/// share out the messages of the range they make up: each message of the
/// whole range is in one of them, once, and they hold no others. The ranges
/// are `start` to `cut` and `next` to `end`, where `next` is the nanosecond
/// after `cut`.
pub proof fn law_time_ranges_partition(
    s: Seq<u8>,
    cat: CatalogView,
    topics: Option<Set<Seq<char>>>,
    start: Time,
    cut: Time,
    next: Time,
    end: Time,
)
    requires
        faithful(s, cat),
        next.nanos() == cut.nanos() + 1,
        start.nanos() <= next.nanos(),
        cut.nanos() <= end.nanos(),
    ensures
        messages(s, cat, QueryView { topics, range: Some((start, end)) }).msgs.to_multiset()
            == messages(s, cat, QueryView { topics, range: Some((start, cut)) }).msgs.to_multiset().add(
            messages(s, cat, QueryView { topics, range: Some((next, end)) }).msgs.to_multiset(),
        ),
{
    let whole = QueryView { topics, range: Some((start, end)) };
    let left = QueryView { topics, range: Some((start, cut)) };
    let right = QueryView { topics, range: Some((next, end)) };
    law_pruning_loses_nothing(s, cat, whole);
    law_pruning_loses_nothing(s, cat, left);
    law_pruning_loses_nothing(s, cat, right);
    lemma_filter_splits(
        messages(s, cat, QueryView::all()).msgs,
        meets(whole),
        meets(left),
        meets(right),
    );
}

} // verus!
