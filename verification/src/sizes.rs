//! The size table of a report: how many payload bytes each topic, or each
//! message type, takes.

use crate::bag::{messages, DecompressedBag, MessageCursor};
use crate::catalog::{connection_views, CatalogView, Connection};
use crate::errors::Error;
use crate::laws::lemma_remaining_meets;
use crate::message::{Message, MessageView};
use crate::metadata::{find_topic, lemma_first_on_finds};
use crate::names::lemma_reordered;
use crate::query::{Query, QueryView};
use crate::summary::{lemma_sum_grows, lemma_sum_same, sum_to, topic_texts};
use crate::totals::add_checked;
use crate::counting::lemma_sum_zero;
use vstd::prelude::*;

verus! {

/// The key under which a message is counted: its topic, or the message
/// type of its topic.
pub open spec fn key_of(cat: CatalogView, by_type: bool, m: Message) -> Seq<char> {
    if by_type {
        match cat.type_of(m.topic) {
            Some(t) => t,
            None => Seq::empty(),
        }
    } else {
        m.topic
    }
}

/// The payload length of message `k`, where its key is `key`.
pub open spec fn size_term(msgs: Seq<Message>, cat: CatalogView, by_type: bool, key: Seq<char>) -> spec_fn(
    int,
) -> int {
    |k: int|
        if key_of(cat, by_type, msgs[k]) == key {
            msgs[k].data.len() as int
        } else {
            0
        }
}

/// The payload bytes of the messages whose key is `key`.
pub open spec fn bytes_of(msgs: Seq<Message>, cat: CatalogView, by_type: bool, key: Seq<char>) -> int {
    sum_to(size_term(msgs, cat, by_type, key), msgs.len() as int)
}

/// The keys and sizes of the rows.
pub open spec fn row_views(rows: Seq<(String, u64)>) -> Seq<(Seq<char>, u64)> {
    Seq::new(rows.len(), |i: int| (rows[i].0@, rows[i].1))
}

/// Whether a message of `msgs` is counted under `key`.
pub open spec fn has_key(msgs: Seq<Message>, cat: CatalogView, by_type: bool, key: Seq<char>) -> bool {
    exists|k: int| 0 <= k < msgs.len() && key_of(cat, by_type, #[trigger] msgs[k]) == key
}

/// Whether a row has the key `key`.
pub open spec fn lists_key(rows: Seq<(Seq<char>, u64)>, key: Seq<char>) -> bool {
    exists|i: int| 0 <= i < rows.len() && (#[trigger] rows[i]).0 == key
}

/// Whether no two rows have the same key.
pub open spec fn distinct_keys(rows: Seq<(Seq<char>, u64)>) -> bool {
    forall|i: int, j: int|
        0 <= i < rows.len() && 0 <= j < rows.len() && i != j ==> (#[trigger] rows[i]).0 != (
        #[trigger] rows[j]).0
}

/// Whether `row` holds the payload bytes of the messages counted under its
/// key, of which there is one at least, and no more bytes than the greatest
/// signed 64-bit number.
pub open spec fn row_sums_up(
    row: (Seq<char>, u64),
    msgs: Seq<Message>,
    cat: CatalogView,
    by_type: bool,
) -> bool {
    &&& row.1 == bytes_of(msgs, cat, by_type, row.0)
    &&& row.1 <= i64::MAX
    &&& has_key(msgs, cat, by_type, row.0)
}

/// Whether `rows` is the size table of `msgs`: the key of each message
/// once, with the payload bytes of the messages counted under it.
pub open spec fn sums_up(
    rows: Seq<(Seq<char>, u64)>,
    msgs: Seq<Message>,
    cat: CatalogView,
    by_type: bool,
) -> bool {
    &&& distinct_keys(rows)
    &&& forall|i: int| 0 <= i < rows.len() ==> row_sums_up(#[trigger] rows[i], msgs, cat, by_type)
    &&& forall|k: int|
        0 <= k < msgs.len() ==> lists_key(rows, #[trigger] key_of(cat, by_type, msgs[k]))
}

/// Whether `size` more bytes under `key` keep the bytes of `key` within the
/// greatest signed 64-bit number.
pub open spec fn fits(rows: Seq<(Seq<char>, u64)>, key: Seq<char>, size: u64) -> bool {
    &&& forall|i: int| 0 <= i < rows.len() && (#[trigger] rows[i]).0 == key ==> rows[i].1 + size
        <= i64::MAX
    &&& size <= i64::MAX
}

/// Whether `after` is `before` with `size` more bytes under `key`: added to
/// the row of `key`, or in a row of its own at the end.
pub open spec fn added(
    before: Seq<(Seq<char>, u64)>,
    after: Seq<(Seq<char>, u64)>,
    key: Seq<char>,
    size: u64,
) -> bool {
    if lists_key(before, key) {
        &&& after.len() == before.len()
        &&& forall|i: int|
            0 <= i < before.len() ==> (#[trigger] after[i]).0 == before[i].0 && after[i].1
                == before[i].1 + if before[i].0 == key {
                size as int
            } else {
                0
            }
    } else {
        after == before.push((key, size))
    }
}

/// Whether the sizes of the rows do not go up.
pub open spec fn largest_first(rows: Seq<(Seq<char>, u64)>) -> bool {
    forall|i: int, j: int| 0 <= i < j < rows.len() ==> rows[i].1 >= rows[j].1
}

/// The key by which rows are sorted, so that greater sizes come first.
fn sort_key(size: u64) -> (r: i64)
    requires
        size <= i64::MAX,
    ensures
        r == -size,
{
    -(size as i64)
}

/// Calls `Itertools::sorted_by_cached_key` of `itertools` on the rows, with
/// the negated size as key. The crate documents that it sorts the items with
/// the standard library's stable `sort_by_cached_key`, which leaves a
/// reordering of the same items with keys in ascending order: sizes that do
/// not go up.
#[verifier::external_body]
fn sorted_largest_first(rows: Vec<(String, u64)>) -> (r: Vec<(String, u64)>)
    requires
        forall|i: int| 0 <= i < rows@.len() ==> (#[trigger] rows@[i]).1 <= i64::MAX,
    ensures
        row_views(r@).to_multiset() == row_views(rows@).to_multiset(),
        largest_first(row_views(r@)),
{
    itertools::Itertools::sorted_by_cached_key(rows.into_iter(), |row| sort_key(row.1)).collect()
}

/// One more message adds its payload to the bytes of its key, and nothing
/// to the bytes of other keys.
pub proof fn lemma_bytes_push(
    msgs: Seq<Message>,
    m: Message,
    cat: CatalogView,
    by_type: bool,
    key: Seq<char>,
)
    ensures
        bytes_of(msgs.push(m), cat, by_type, key) == bytes_of(msgs, cat, by_type, key) + if key_of(
            cat,
            by_type,
            m,
        ) == key {
            m.data.len() as int
        } else {
            0
        },
        0 <= bytes_of(msgs, cat, by_type, key),
{
    let a = size_term(msgs.push(m), cat, by_type, key);
    let b = size_term(msgs, cat, by_type, key);
    assert forall|k: int| 0 <= k < msgs.len() implies #[trigger] a(k) == b(k) by {
        assert(msgs.push(m)[k] == msgs[k]);
    }
    lemma_sum_same(a, b, msgs.len() as int);
    assert forall|k: int| 0 <= k < msgs.len() implies 0 <= #[trigger] b(k) by {}
    lemma_sum_grows(b, 0, msgs.len() as int);
    assert(msgs.push(m)[msgs.len() as int] == m);
}

/// The bytes of a key among the first messages are among its bytes in all
/// messages.
pub proof fn lemma_bytes_grow(
    front: Seq<Message>,
    back: Seq<Message>,
    cat: CatalogView,
    by_type: bool,
    key: Seq<char>,
)
    ensures
        bytes_of(front, cat, by_type, key) <= bytes_of(front + back, cat, by_type, key),
{
    let a = size_term(front + back, cat, by_type, key);
    let b = size_term(front, cat, by_type, key);
    assert forall|k: int| 0 <= k < front.len() implies #[trigger] a(k) == b(k) by {
        assert((front + back)[k] == front[k]);
    }
    lemma_sum_same(a, b, front.len() as int);
    assert forall|k: int| 0 <= k < (front + back).len() implies 0 <= #[trigger] a(k) by {}
    lemma_sum_grows(a, front.len() as int, (front + back).len() as int);
}

/// Finds the row of `key`.
pub fn find_row(rows: &Vec<(String, u64)>, key: &String) -> (r: Option<usize>)
    ensures
        match r {
            Some(i) => i < rows@.len() && row_views(rows@)[i as int].0 == key@,
            None => !lists_key(row_views(rows@), key@),
        },
{
    let mut i: usize = 0;
    while i < rows.len()
        invariant
            0 <= i <= rows@.len(),
            forall|k: int| 0 <= k < i ==> (#[trigger] row_views(rows@)[k]).0 != key@,
        decreases rows@.len() - i,
    {
        if rows[i].0 == *key {
            return Some(i);
        }
        assert(row_views(rows@)[i as int].0 != key@);
        i += 1;
    }
    None
}

/// The key under which a message is counted.
pub fn message_key(conns: &Vec<Connection>, by_type: bool, m: &MessageView<'_>) -> (r: String)
    ensures
        forall|cat: CatalogView|
            cat.connections == connection_views(conns@) && topic_texts(cat.connections).contains(
                m@.topic,
            ) ==> r@ == #[trigger] key_of(cat, by_type, m@),
{
    let topic: String = m.topic.to_owned();
    if by_type {
        proof {
            let list = connection_views(conns@);
            if topic_texts(list).contains(m@.topic) {
                let at = choose|at: int|
                    0 <= at < topic_texts(list).len() && topic_texts(list)[at] == m@.topic;
                lemma_first_on_finds(list, m@.topic, 0, at);
            }
        }
        // A message is on the topic of a connection, so one is found.
        match find_topic(conns, &topic) {
            Some(at) => conns[at].data_type.clone(),
            None => String::new(),
        }
    } else {
        topic
    }
}

/// Adds `size` bytes under `key` to the rows, unless the bytes of the key
/// would go above the greatest signed 64-bit number: then the rows are left
/// as they are.
pub fn add_size(rows: &mut Vec<(String, u64)>, key: String, size: u64) -> (r: bool)
    requires
        distinct_keys(row_views(old(rows)@)),
    ensures
        r == fits(row_views(old(rows)@), key@, size),
        r ==> added(row_views(old(rows)@), row_views(final(rows)@), key@, size),
        !r ==> final(rows)@ == old(rows)@,
{
    let ghost before = row_views(rows@);
    match find_row(rows, &key) {
        Some(i) => {
            assert(before[i as int].0 == key@);
            let sum: Option<u64> = add_checked(rows[i].1, size);
            match sum {
                Some(v) => {
                    if v > i64::MAX as u64 {
                        return false;
                    }
                    rows.set(i, (key, v));
                    assert forall|k: int| 0 <= k < before.len() implies (#[trigger] row_views(
                        rows@,
                    )[k]).0 == before[k].0 && row_views(rows@)[k].1 == before[k].1
                        + if before[k].0 == key@ {
                        size as int
                    } else {
                        0
                    } by {
                        if k != i {
                            assert(before[k].0 != before[i as int].0);
                        }
                    }
                    assert forall|k: int|
                        0 <= k < before.len() && (#[trigger] before[k]).0 == key@ implies before[k].1
                        + size <= i64::MAX by {
                        if k != i {
                            assert(before[k].0 != before[i as int].0);
                        }
                    }
                    true
                },
                None => false,
            }
        },
        None => {
            if size > i64::MAX as u64 {
                return false;
            }
            rows.push((key, size));
            assert(row_views(rows@) =~= before.push((key@, size)));
            true
        },
    }
}

/// A reordering of a size table is a size table of the same messages.
pub proof fn lemma_sums_up_reordered(
    sorted: Seq<(Seq<char>, u64)>,
    rows: Seq<(Seq<char>, u64)>,
    msgs: Seq<Message>,
    cat: CatalogView,
    by_type: bool,
)
    requires
        sorted.to_multiset() == rows.to_multiset(),
        sums_up(rows, msgs, cat, by_type),
    ensures
        sums_up(sorted, msgs, cat, by_type),
{
    assert(rows.no_duplicates()) by {
        assert forall|i: int, j: int|
            0 <= i < rows.len() && 0 <= j < rows.len() && i != j implies rows[i] != rows[j] by {
            assert(rows[i].0 != rows[j].0);
        }
    }
    lemma_reordered(sorted, rows);
    assert forall|i: int| 0 <= i < sorted.len() implies row_sums_up(
        #[trigger] sorted[i],
        msgs,
        cat,
        by_type,
    ) by {
        assert(sorted.contains(sorted[i]));
        let a = choose|a: int| 0 <= a < rows.len() && rows[a] == sorted[i];
        assert(row_sums_up(rows[a], msgs, cat, by_type));
    }
    assert forall|i: int, j: int|
        0 <= i < sorted.len() && 0 <= j < sorted.len() && i != j implies (#[trigger] sorted[i]).0 != (
    #[trigger] sorted[j]).0 by {
        assert(sorted.contains(sorted[i]));
        assert(sorted.contains(sorted[j]));
        let a = choose|a: int| 0 <= a < rows.len() && rows[a] == sorted[i];
        let b = choose|b: int| 0 <= b < rows.len() && rows[b] == sorted[j];
        if a != b {
            assert(rows[a].0 != rows[b].0);
        } else {
            assert(sorted[i] != sorted[j]);
        }
    }
    assert forall|k: int| 0 <= k < msgs.len() implies lists_key(
        sorted,
        #[trigger] key_of(cat, by_type, msgs[k]),
    ) by {
        let key = key_of(cat, by_type, msgs[k]);
        assert(lists_key(rows, key));
        let a = choose|a: int| 0 <= a < rows.len() && (#[trigger] rows[a]).0 == key;
        assert(rows.contains(rows[a]));
        let i = choose|i: int| 0 <= i < sorted.len() && sorted[i] == rows[a];
        assert(sorted[i].0 == key);
    }
}

/// A size table stays one when a message is added to the messages and its
/// size to the row of its key.
pub proof fn lemma_sums_up_grows(
    before: Seq<(Seq<char>, u64)>,
    after: Seq<(Seq<char>, u64)>,
    msgs: Seq<Message>,
    m: Message,
    cat: CatalogView,
    by_type: bool,
)
    requires
        sums_up(before, msgs, cat, by_type),
        m.data.len() <= u64::MAX,
        fits(before, key_of(cat, by_type, m), m.data.len() as u64),
        added(before, after, key_of(cat, by_type, m), m.data.len() as u64),
    ensures
        sums_up(after, msgs.push(m), cat, by_type),
{
    let more = msgs.push(m);
    let key = key_of(cat, by_type, m);
    let listed = lists_key(before, key);
    assert(more[msgs.len() as int] == m);
    assert forall|i: int| 0 <= i < after.len() implies row_sums_up(
        #[trigger] after[i],
        more,
        cat,
        by_type,
    ) by {
        lemma_bytes_push(msgs, m, cat, by_type, after[i].0);
        if i < before.len() {
            assert(row_sums_up(before[i], msgs, cat, by_type));
            assert(after[i].0 == before[i].0);
            let k = choose|k: int|
                0 <= k < msgs.len() && key_of(cat, by_type, #[trigger] msgs[k]) == before[i].0;
            assert(more[k] == msgs[k]);
            assert(has_key(more, cat, by_type, after[i].0));
        } else {
            assert(!listed);
            assert(after[i] == (key, m.data.len() as u64));
            let term = size_term(msgs, cat, by_type, key);
            assert forall|k: int| 0 <= k < msgs.len() implies #[trigger] term(k) == 0 by {
                if key_of(cat, by_type, msgs[k]) == key {
                    assert(lists_key(before, key_of(cat, by_type, msgs[k])));
                }
            }
            lemma_sum_zero(term, msgs.len() as int);
            assert(key_of(cat, by_type, more[msgs.len() as int]) == key);
            assert(has_key(more, cat, by_type, after[i].0));
        }
    }
    assert forall|k: int| 0 <= k < more.len() implies lists_key(
        after,
        #[trigger] key_of(cat, by_type, more[k]),
    ) by {
        let wanted = key_of(cat, by_type, more[k]);
        if k < msgs.len() {
            assert(more[k] == msgs[k]);
            assert(lists_key(before, key_of(cat, by_type, msgs[k])));
            let i = choose|i: int| 0 <= i < before.len() && (#[trigger] before[i]).0 == wanted;
            assert(after[i].0 == wanted);
        } else if listed {
            let i = choose|i: int| 0 <= i < before.len() && (#[trigger] before[i]).0 == key;
            assert(after[i].0 == key);
        } else {
            assert(after[before.len() as int].0 == key);
        }
    }
    assert forall|i: int, j: int|
        0 <= i < after.len() && 0 <= j < after.len() && i != j implies (#[trigger] after[i]).0 != (
    #[trigger] after[j]).0 by {
        if i < before.len() && j < before.len() {
            assert(before[i].0 != before[j].0);
            assert(after[i].0 == before[i].0 && after[j].0 == before[j].0);
        } else if i < before.len() {
            assert(after[i].0 == before[i].0);
        } else if j < before.len() {
            assert(after[j].0 == before[j].0);
        }
    }
}

/// The size table of a report: each topic, or each message type, that has a
/// message, with the payload bytes of its messages, the greatest first.
/// `None` when the bytes of a key go above the greatest signed 64-bit
/// number; a fault where the messages are cut short.
pub fn size_rows(bag: &DecompressedBag, by_type: bool) -> (r: Result<
    Option<Vec<(String, u64)>>,
    Error,
>)
    ensures
        match r {
            Ok(Some(rows)) => {
                &&& messages(bag.source(), bag.catalog(), QueryView::all()).fault is None
                &&& sums_up(
                    row_views(rows@),
                    messages(bag.source(), bag.catalog(), QueryView::all()).msgs,
                    bag.catalog(),
                    by_type,
                )
                &&& largest_first(row_views(rows@))
            },
            Ok(None) => exists|key: Seq<char>|
                bytes_of(
                    messages(bag.source(), bag.catalog(), QueryView::all()).msgs,
                    bag.catalog(),
                    by_type,
                    key,
                ) > i64::MAX,
            Err(e) => messages(bag.source(), bag.catalog(), QueryView::all()).fault == Some(e@),
        },
{
    let query: Query = Query::all();
    let conns: &Vec<Connection> = bag.metadata().connection_data();
    let ghost cat = bag.catalog();
    let ghost all = messages(bag.source(), cat, QueryView::all());
    let mut cursor: MessageCursor<'_> = bag.read_messages(&query);
    let mut rows: Vec<(String, u64)> = Vec::new();
    let ghost mut seen: Seq<Message> = Seq::empty();
    assert(all.msgs =~= seen + cursor.rest(bag.source(), cat).msgs);
    loop
        invariant
            cat == bag.catalog(),
            connection_views(conns@) == cat.connections,
            all == messages(bag.source(), cat, QueryView::all()),
            cursor.query() == QueryView::all(),
            all.msgs == seen + cursor.rest(bag.source(), cat).msgs,
            all.fault == cursor.rest(bag.source(), cat).fault,
            sums_up(row_views(rows@), seen, cat, by_type),
        decreases cursor.rest(bag.source(), cat).msgs.len(),
    {
        let ghost before_rest = cursor.rest(bag.source(), cat);
        let ghost before_rows = row_views(rows@);
        let ghost chunk = cursor.chunk();
        let ghost pos = cursor.pos();
        let m: MessageView<'_> = match bag.next_message(&mut cursor) {
            Err(e) => {
                return Err(e);
            },
            Ok(None) => {
                assert(all.msgs =~= seen);
                let ghost unsorted = row_views(rows@);
                assert forall|i: int| 0 <= i < rows@.len() implies (#[trigger] rows@[i]).1
                    <= i64::MAX by {
                    assert(row_sums_up(unsorted[i], seen, cat, by_type));
                }
                let sorted: Vec<(String, u64)> = sorted_largest_first(rows);
                proof {
                    lemma_sums_up_reordered(row_views(sorted@), unsorted, seen, cat, by_type);
                }
                return Ok(Some(sorted));
            },
            Ok(Some(m)) => m,
        };
        let ghost after_rest = cursor.rest(bag.source(), cat);
        proof {
            assert(before_rest.msgs[0] == m@);
            lemma_remaining_meets(bag.source(), cat, QueryView::all(), chunk, pos);
            crate::catalog::lemma_position(cat.connections, m@.conn, 0);
            let at = crate::catalog::position(cat.connections, m@.conn, 0)->0;
            assert(topic_texts(cat.connections)[at] == m@.topic);
        }
        let key: String = message_key(conns, by_type, &m);
        let size: u64 = m.size();
        let ok: bool = add_size(&mut rows, key, size);
        proof {
            assert(all.msgs =~= seen.push(m@) + after_rest.msgs);
        }
        if !ok {
            proof {
                let k = key_of(cat, by_type, m@);
                lemma_bytes_push(seen, m@, cat, by_type, k);
                lemma_bytes_grow(seen.push(m@), after_rest.msgs, cat, by_type, k);
                if size <= i64::MAX {
                    let i = choose|i: int|
                        0 <= i < before_rows.len() && (#[trigger] before_rows[i]).0 == k
                            && before_rows[i].1 + size > i64::MAX;
                    assert(row_sums_up(before_rows[i], seen, cat, by_type));
                }
                assert(bytes_of(all.msgs, cat, by_type, k) > i64::MAX);
            }
            return Ok(None);
        }
        proof {
            lemma_sums_up_grows(before_rows, row_views(rows@), seen, m@, cat, by_type);
            seen = seen.push(m@);
        }
    }
}

} // verus!
