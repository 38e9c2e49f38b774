//! What a report on a recording is computed from: column widths, size
//! units, and lists in the order in which they are shown.

use crate::catalog::{connection_views, CatalogView, Connection, ConnectionView};
use crate::metadata::{
    collect_topics, collect_types, find_topic, lemma_first_on_finds, BagMetadata,
};
use crate::names::{ascending, text_le, texts};
use crate::summary::{topic_texts, type_texts};
use vstd::prelude::*;
use vstd::utf8::encode_utf8;

verus! {

/// The number of bytes that a text takes.
pub open spec fn byte_len(t: Seq<char>) -> int {
    encode_utf8(t).len() as int
}

/// The greatest byte length among the first `n` texts; zero without texts.
pub open spec fn widest(list: Seq<Seq<char>>, n: int) -> int
    decreases n,
{
    if n <= 0 {
        0
    } else if byte_len(list[n - 1]) > widest(list, n - 1) {
        byte_len(list[n - 1])
    } else {
        widest(list, n - 1)
    }
}

/// The greatest byte length among `names`; zero without names.
pub fn max_len(names: &Vec<String>) -> (r: usize)
    ensures
        r == widest(texts(names@), names@.len() as int),
{
    let mut most: usize = 0;
    let mut i: usize = 0;
    while i < names.len()
        invariant
            0 <= i <= names@.len(),
            most == widest(texts(names@), i as int),
        decreases names@.len() - i,
    {
        let n: usize = names[i].as_str().as_bytes().len();
        assert(n == byte_len(texts(names@)[i as int]));
        if n > most {
            most = n;
        }
        i += 1;
    }
    most
}

/// The byte length of the longest message type name; zero without
/// connections.
pub fn max_type_len(metadata: &BagMetadata) -> (r: usize)
    ensures
        r == widest(
            type_texts(metadata.catalog().connections),
            metadata.catalog().connections.len() as int,
        ),
{
    let all: Vec<String> = collect_types(metadata.connection_data());
    assert(texts(all@).len() == metadata.catalog().connections.len());
    max_len(&all)
}

/// The byte length of the longest topic name; zero without connections.
pub fn max_topic_len(metadata: &BagMetadata) -> (r: usize)
    ensures
        r == widest(
            topic_texts(metadata.catalog().connections),
            metadata.catalog().connections.len() as int,
        ),
{
    let all: Vec<String> = collect_topics(metadata.connection_data());
    assert(texts(all@).len() == metadata.catalog().connections.len());
    max_len(&all)
}

/// The unit in which a size is shown.
#[derive(Clone, Copy, Debug, PartialEq, Eq, Structural)]
pub enum SizeUnit {
    Bytes,
    Kilobytes,
    Megabytes,
    Gigabytes,
}

/// How a size is shown: in which unit, and after how many divisions by
/// 1024.
#[derive(Clone, Copy, Debug, PartialEq, Eq, Structural)]
pub struct Scale {
    pub unit: SizeUnit,
    pub divisions: u32,
}

/// The scale at which `bytes` is shown: the first unit in which it is below
/// 1024, and gigabytes for all sizes from 1024 gigabytes on, which are
/// divided once more all the same.
pub open spec fn scale_of(bytes: u64) -> Scale {
    if bytes < 1024 {
        Scale { unit: SizeUnit::Bytes, divisions: 0 }
    } else if bytes < 1024 * 1024 {
        Scale { unit: SizeUnit::Kilobytes, divisions: 1 }
    } else if bytes < 1024 * 1024 * 1024 {
        Scale { unit: SizeUnit::Megabytes, divisions: 2 }
    } else if bytes < 1024 * 1024 * 1024 * 1024 {
        Scale { unit: SizeUnit::Gigabytes, divisions: 3 }
    } else {
        Scale { unit: SizeUnit::Gigabytes, divisions: 4 }
    }
}

/// Picks the scale at which `bytes` is shown.
pub fn size_scale(bytes: u64) -> (r: Scale)
    ensures
        r == scale_of(bytes),
{
    let mut rest: u64 = bytes;
    let mut divisions: u32 = 0;
    let mut unit: SizeUnit = SizeUnit::Bytes;
    if rest >= 1024 {
        rest = rest / 1024;
        divisions = 1;
        unit = SizeUnit::Kilobytes;
        if rest >= 1024 {
            rest = rest / 1024;
            divisions = 2;
            unit = SizeUnit::Megabytes;
            if rest >= 1024 {
                rest = rest / 1024;
                divisions = 3;
                unit = SizeUnit::Gigabytes;
                if rest >= 1024 {
                    divisions = 4;
                }
            }
        }
    }
    Scale { unit, divisions }
}

impl SizeUnit {
    /// The name of the unit in a report.
    pub fn label(&self) -> (r: &'static str)
        ensures
            r@ == match self {
                SizeUnit::Bytes => "bytes"@,
                SizeUnit::Kilobytes => "KB"@,
                SizeUnit::Megabytes => "MB"@,
                SizeUnit::Gigabytes => "GB"@,
            },
    {
        match self {
            SizeUnit::Bytes => "bytes",
            SizeUnit::Kilobytes => "KB",
            SizeUnit::Megabytes => "MB",
            SizeUnit::Gigabytes => "GB",
        }
    }
}

/// One line of the topic table of a report.
#[derive(Debug, Clone, PartialEq, Eq)]
pub struct TopicRow {
    pub topic: String,
    pub data_type: String,
    pub count: u64,
}

/// The topics of the rows.
pub open spec fn row_topics(rows: Seq<TopicRow>) -> Seq<Seq<char>> {
    Seq::new(rows.len(), |i: int| rows[i].topic@)
}

/// Whether `rows` is the topic table of `cat`: each topic once, in
/// ascending order, with the message type of the first connection on it and
/// the number of messages on it.
pub open spec fn is_topic_table(rows: Seq<TopicRow>, cat: CatalogView) -> bool {
    &&& row_topics(rows).no_duplicates()
    &&& ascending(row_topics(rows))
    &&& forall|t: Seq<char>| row_topics(rows).contains(t) <==> cat.topics().contains(t)
    &&& forall|i: int|
        0 <= i < rows.len() ==> {
            &&& cat.type_of((#[trigger] rows[i]).topic@) == Some(rows[i].data_type@)
            &&& rows[i].count == cat.topic_count(rows[i].topic@)
        }
}

/// The topic table of a report: the topics in ascending order, each with
/// its message type and the number of its messages.
pub fn topic_rows(metadata: &BagMetadata) -> (r: Vec<TopicRow>)
    ensures
        is_topic_table(r@, metadata.catalog()),
{
    let topics: Vec<String> = metadata.topics();
    let conns: &Vec<Connection> = metadata.connection_data();
    let mut out: Vec<TopicRow> = Vec::new();
    let mut i: usize = 0;
    while i < topics.len()
        invariant
            0 <= i <= topics@.len(),
            connection_views(conns@) == metadata.catalog().connections,
            forall|t: Seq<char>|
                texts(topics@).contains(t) <==> metadata.catalog().topics().contains(t),
            out@.len() == i,
            forall|k: int|
                0 <= k < i ==> {
                    &&& (#[trigger] out@[k]).topic@ == topics@[k]@
                    &&& metadata.catalog().type_of(out@[k].topic@) == Some(out@[k].data_type@)
                    &&& out@[k].count == metadata.catalog().topic_count(out@[k].topic@)
                },
        decreases topics@.len() - i,
    {
        proof {
            let t = topics@[i as int]@;
            assert(texts(topics@)[i as int] == t);
            assert(texts(topics@).contains(t));
            let list = topic_texts(metadata.catalog().connections);
            let at = choose|at: int| 0 <= at < list.len() && list[at] == t;
            lemma_first_on_finds(metadata.catalog().connections, t, 0, at);
        }
        // Each topic is the topic of a connection, so one is found.
        let data_type: String = match find_topic(conns, &topics[i]) {
            Some(at) => conns[at].data_type.clone(),
            None => String::new(),
        };
        let count: u64 = metadata.topic_message_count(&topics[i]);
        out.push(TopicRow { topic: topics[i].clone(), data_type, count });
        i += 1;
    }
    assert(row_topics(out@) =~= texts(topics@));
    out
}

/// The message type and the digest of each connection.
pub open spec fn type_digests(conns: Seq<ConnectionView>) -> Seq<(Seq<char>, Seq<char>)> {
    Seq::new(conns.len(), |i: int| (conns[i].data_type, conns[i].md5sum))
}

/// The texts of a list of pairs.
pub open spec fn pair_texts(list: Seq<(String, String)>) -> Seq<(Seq<char>, Seq<char>)> {
    Seq::new(list.len(), |i: int| (list[i].0@, list[i].1@))
}

/// Whether the first texts of the pairs are in ascending order.
pub open spec fn ascending_by_first(list: Seq<(Seq<char>, Seq<char>)>) -> bool {
    forall|i: int, j: int| 0 <= i < j < list.len() ==> text_le(list[i].0, list[j].0)
}

/// Whether the pair of `first` and `second` is in `list`.
pub fn holds_pair(list: &Vec<(String, String)>, first: &String, second: &String) -> (r: bool)
    ensures
        r == pair_texts(list@).contains((first@, second@)),
{
    let mut i: usize = 0;
    while i < list.len()
        invariant
            0 <= i <= list@.len(),
            forall|k: int| 0 <= k < i ==> pair_texts(list@)[k] != (first@, second@),
        decreases list@.len() - i,
    {
        if list[i].0 == *first && list[i].1 == *second {
            assert(pair_texts(list@)[i as int] == (first@, second@));
            return true;
        }
        i += 1;
    }
    false
}

/// The type table of a report: each pair of message type and digest that a
/// connection has, once, the types in ascending order.
pub fn type_rows(metadata: &BagMetadata) -> (r: Vec<(String, String)>)
    ensures
        pair_texts(r@).no_duplicates(),
        ascending_by_first(pair_texts(r@)),
        forall|p: (Seq<char>, Seq<char>)|
            pair_texts(r@).contains(p) <==> type_digests(metadata.catalog().connections).contains(
                p,
            ),
{
    let types: Vec<String> = metadata.types();
    let conns: &Vec<Connection> = metadata.connection_data();
    let ghost all = type_digests(metadata.catalog().connections);
    let mut out: Vec<(String, String)> = Vec::new();
    let mut i: usize = 0;
    while i < types.len()
        invariant
            0 <= i <= types@.len(),
            connection_views(conns@) == metadata.catalog().connections,
            all == type_digests(metadata.catalog().connections),
            texts(types@).no_duplicates(),
            ascending(texts(types@)),
            forall|t: Seq<char>|
                texts(types@).contains(t) <==> metadata.catalog().types().contains(t),
            pair_texts(out@).no_duplicates(),
            forall|k: int|
                0 <= k < out@.len() ==> exists|n: int|
                    0 <= n < i && texts(types@)[n] == (#[trigger] pair_texts(out@)[k]).0,
            forall|a: int, b: int|
                0 <= a < b < out@.len() ==> text_le(pair_texts(out@)[a].0, pair_texts(out@)[b].0),
            forall|p: (Seq<char>, Seq<char>)|
                pair_texts(out@).contains(p) <==> all.contains(p) && exists|n: int|
                    0 <= n < i && #[trigger] texts(types@)[n] == p.0,
        decreases types@.len() - i,
    {
        let ghost t = types@[i as int]@;
        assert(texts(types@)[i as int] == t);
        let ghost start = pair_texts(out@);
        let mut j: usize = 0;
        while j < conns.len()
            invariant
                0 <= i < types@.len(),
                0 <= j <= conns@.len(),
                t == types@[i as int]@,
                texts(types@)[i as int] == t,
                connection_views(conns@) == metadata.catalog().connections,
                all == type_digests(metadata.catalog().connections),
                texts(types@).no_duplicates(),
                ascending(texts(types@)),
                pair_texts(out@).no_duplicates(),
                forall|k: int|
                    0 <= k < out@.len() ==> exists|n: int|
                        0 <= n <= i && texts(types@)[n] == (#[trigger] pair_texts(out@)[k]).0,
                forall|a: int, b: int|
                    0 <= a < b < out@.len() ==> text_le(
                        pair_texts(out@)[a].0,
                        pair_texts(out@)[b].0,
                    ),
                forall|p: (Seq<char>, Seq<char>)|
                    pair_texts(out@).contains(p) <==> (all.contains(p) && exists|n: int|
                        0 <= n < i && #[trigger] texts(types@)[n] == p.0) || (p.0 == t
                        && exists|m: int| 0 <= m < j && #[trigger] all[m] == p),
            decreases conns@.len() - j,
        {
            assert(all[j as int] == (conns@[j as int].data_type@, conns@[j as int].md5sum@));
            let ghost before = pair_texts(out@);
            let ghost fresh = all[j as int];
            let same_type: bool = conns[j].data_type == types[i];
            let known: bool = holds_pair(&out, &conns[j].data_type, &conns[j].md5sum);
            if same_type && !known {
                out.push((conns[j].data_type.clone(), conns[j].md5sum.clone()));
                assert(pair_texts(out@) =~= before.push(fresh));
                assert forall|a: int, b: int| 0 <= a < b < out@.len() implies text_le(
                    pair_texts(out@)[a].0,
                    pair_texts(out@)[b].0,
                ) by {
                    if b == before.len() {
                        let n = choose|n: int| 0 <= n <= i && texts(types@)[n] == before[a].0;
                        if n == i {
                            lemma_text_le_same(t);
                        }
                    }
                }
            }
            proof {
                let now = pair_texts(out@);
                assert forall|p: (Seq<char>, Seq<char>)| before.contains(p) implies now.contains(
                    p,
                ) by {
                    let k = choose|k: int| 0 <= k < before.len() && before[k] == p;
                    assert(now[k] == p);
                }
                assert forall|p: (Seq<char>, Seq<char>)|
                    now.contains(p) <==> (all.contains(p) && exists|n: int|
                        0 <= n < i && #[trigger] texts(types@)[n] == p.0) || (p.0 == t
                        && exists|m: int| 0 <= m < j + 1 && #[trigger] all[m] == p) by {
                    let by_type = all.contains(p) && exists|n: int|
                        0 <= n < i && #[trigger] texts(types@)[n] == p.0;
                    let by_conn_before = p.0 == t && exists|m: int|
                        0 <= m < j && #[trigger] all[m] == p;
                    let by_conn_now = p.0 == t && exists|m: int|
                        0 <= m < j + 1 && #[trigger] all[m] == p;
                    assert(before.contains(p) <==> by_type || by_conn_before);
                    if by_conn_before {
                        let m = choose|m: int| 0 <= m < j && #[trigger] all[m] == p;
                        assert(0 <= m < j + 1 && all[m] == p);
                    }
                    if now.contains(p) && !before.contains(p) {
                        let k = choose|k: int| 0 <= k < now.len() && now[k] == p;
                        assert(k == before.len());
                        assert(all[j as int] == p);
                    }
                    if by_conn_now && !by_conn_before {
                        let m = choose|m: int| 0 <= m < j + 1 && #[trigger] all[m] == p;
                        assert(m == j);
                        if same_type && !known {
                            assert(now[before.len() as int] == p);
                        }
                    }
                }
            }
            j += 1;
        }
        proof {
            assert forall|p: (Seq<char>, Seq<char>)|
                pair_texts(out@).contains(p) <==> all.contains(p) && exists|n: int|
                    0 <= n < i + 1 && #[trigger] texts(types@)[n] == p.0 by {
                if all.contains(p) && p.0 == t {
                    let m = choose|m: int| 0 <= m < all.len() && all[m] == p;
                    assert(all[m] == p);
                }
            }
        }
        i += 1;
    }
    proof {
        assert forall|p: (Seq<char>, Seq<char>)|
            pair_texts(out@).contains(p) <==> all.contains(p) by {
            if all.contains(p) {
                let m = choose|m: int| 0 <= m < all.len() && all[m] == p;
                assert(type_texts(metadata.catalog().connections)[m] == p.0);
                assert(metadata.catalog().types().contains(p.0));
                assert(texts(types@).contains(p.0));
                let n = choose|n: int| 0 <= n < texts(types@).len() && texts(types@)[n] == p.0;
                assert(texts(types@)[n] == p.0);
            }
        }
    }
    out
}

/// A text comes before itself or is itself.
pub proof fn lemma_text_le_same(t: Seq<char>)
    ensures
        text_le(t, t),
    decreases t.len(),
{
    if t.len() > 0 {
        lemma_text_le_same(t.drop_first());
    }
}

} // verus!
