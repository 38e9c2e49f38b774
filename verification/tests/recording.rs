use frost::bag::{Bag, DecompressedBag};
use frost::catalog::{read_indexed, Catalog};
use frost::chunk::ChunkCache;
use frost::compression::{decompress, Codec};
use frost::errors::Error;
use frost::metadata::BagMetadata;
use frost::query::Query;
use frost::report::{
    max_topic_len, max_type_len, size_scale, topic_rows, type_rows, Scale, SizeUnit, TopicRow,
};
use frost::scan::{read_catalog, read_scanned, Origin};
use frost::sizes::size_rows;
use frost::time::Time;
use std::io::Write;

const ALPHA: &str = "/alpha";
const BETA: &str = "/beta";

fn le32(x: u32) -> Vec<u8> {
    x.to_le_bytes().to_vec()
}

fn le64(x: u64) -> Vec<u8> {
    x.to_le_bytes().to_vec()
}

fn time_bytes(secs: u32, nsecs: u32) -> Vec<u8> {
    let mut out = le32(secs);
    out.extend(le32(nsecs));
    out
}

fn field(name: &str, value: &[u8]) -> Vec<u8> {
    let mut out = le32((name.len() + 1 + value.len()) as u32);
    out.extend(name.as_bytes());
    out.push(b'=');
    out.extend(value);
    out
}

fn record(fields: &[Vec<u8>], data: &[u8]) -> Vec<u8> {
    let header: Vec<u8> = fields.concat();
    let mut out = le32(header.len() as u32);
    out.extend(header);
    out.extend(le32(data.len() as u32));
    out.extend(data);
    out
}

fn bag_header(index_pos: u64, conn_count: u32, chunk_count: u32) -> Vec<u8> {
    let fields = vec![
        field("op", &[3]),
        field("index_pos", &le64(index_pos)),
        field("conn_count", &le32(conn_count)),
        field("chunk_count", &le32(chunk_count)),
    ];
    let header_len: usize = fields.iter().map(|f| f.len()).sum();
    let padding = vec![b' '; 4096 - 8 - header_len];
    record(&fields, &padding)
}

fn connection(conn: u32, topic: &str, data_type: &str, md5sum: &str) -> Vec<u8> {
    let details = vec![
        field("topic", topic.as_bytes()),
        field("type", data_type.as_bytes()),
        field("md5sum", md5sum.as_bytes()),
        field("message_definition", b"uint32 data"),
    ]
    .concat();
    record(
        &[field("op", &[7]), field("conn", &le32(conn)), field("topic", topic.as_bytes())],
        &details,
    )
}

fn message(conn: u32, secs: u32, nsecs: u32, payload: &[u8]) -> Vec<u8> {
    record(
        &[field("op", &[2]), field("conn", &le32(conn)), field("time", &time_bytes(secs, nsecs))],
        payload,
    )
}

fn lz4(raw: &[u8]) -> Vec<u8> {
    let mut encoder = lz4_flex::frame::FrameEncoder::new(Vec::new());
    encoder.write_all(raw).unwrap();
    encoder.finish().unwrap()
}

fn bz2(raw: &[u8]) -> Vec<u8> {
    let mut encoder = bzip2::write::BzEncoder::new(Vec::new(), bzip2::Compression::default());
    encoder.write_all(raw).unwrap();
    encoder.finish().unwrap()
}

fn chunk_with(compression: &str, size: u32, stored: &[u8]) -> Vec<u8> {
    record(
        &[
            field("op", &[5]),
            field("compression", compression.as_bytes()),
            field("size", &le32(size)),
        ],
        stored,
    )
}

fn chunk(compression: &str, raw: &[u8]) -> Vec<u8> {
    let stored = match compression {
        "lz4" => lz4(raw),
        "bz2" => bz2(raw),
        _ => raw.to_vec(),
    };
    chunk_with(compression, raw.len() as u32, &stored)
}

fn index_data(conn: u32, entries: &[(u32, u32, u32)]) -> Vec<u8> {
    let mut data = Vec::new();
    for (secs, nsecs, offset) in entries {
        data.extend(time_bytes(*secs, *nsecs));
        data.extend(le32(*offset));
    }
    record(
        &[
            field("op", &[4]),
            field("ver", &le32(1)),
            field("conn", &le32(conn)),
            field("count", &le32(entries.len() as u32)),
        ],
        &data,
    )
}

fn chunk_info(chunk_pos: u64, start: (u32, u32), end: (u32, u32), counts: &[(u32, u32)]) -> Vec<u8> {
    let mut data = Vec::new();
    for (conn, count) in counts {
        data.extend(le32(*conn));
        data.extend(le32(*count));
    }
    record(
        &[
            field("op", &[6]),
            field("ver", &le32(1)),
            field("chunk_pos", &le64(chunk_pos)),
            field("start_time", &time_bytes(start.0, start.1)),
            field("end_time", &time_bytes(end.0, end.1)),
            field("count", &le32(counts.len() as u32)),
        ],
        &data,
    )
}

const MAGIC: &[u8] = b"#ROSBAG V2.0\n";

/// The time of message `k` of the fixture.
fn stamp(k: u32) -> (u32, u32) {
    (100 + k / 10, (k % 10) * 1000)
}

/// The connection of message `k` of the fixture: five of eight on the first.
fn conn_of(k: u32) -> u32 {
    if k % 8 < 5 {
        0
    } else {
        1
    }
}

fn payload(k: u32) -> Vec<u8> {
    let mut out = Vec::new();
    for _ in 0..(4 + k % 3) {
        out.extend(le32(k));
    }
    out
}

/// A recording of 80 messages in four chunks, 50 on `/alpha` and 30 on
/// `/beta`, two chunks compressed with each of two codecs. With `indexed`
/// it ends in an index; without, the leading record points nowhere.
fn fixture_with(indexed: bool, codecs: [&str; 4]) -> Vec<u8> {
    let mut body: Vec<u8> = Vec::new();
    let mut infos: Vec<Vec<u8>> = Vec::new();
    let base = (MAGIC.len() + 4096) as u64;
    for c in 0..4u32 {
        let mut raw = Vec::new();
        raw.extend(connection(0, ALPHA, "std_msgs/UInt32", "304a39449588c7f8ce2df6e8001c5fce"));
        raw.extend(connection(1, BETA, "std_msgs/String", "992ce8a1687cec8c8bd883ec73ca41d1"));
        let mut entries: [Vec<(u32, u32, u32)>; 2] = [Vec::new(), Vec::new()];
        let mut counts = [0u32; 2];
        for k in (c * 20)..(c * 20 + 20) {
            let (secs, nsecs) = stamp(k);
            entries[conn_of(k) as usize].push((secs, nsecs, raw.len() as u32));
            counts[conn_of(k) as usize] += 1;
            raw.extend(message(conn_of(k), secs, nsecs, &payload(k)));
        }
        let chunk_pos = base + body.len() as u64;
        body.extend(chunk(codecs[c as usize], &raw));
        body.extend(index_data(0, &entries[0]));
        body.extend(index_data(1, &entries[1]));
        infos.push(chunk_info(
            chunk_pos,
            stamp(c * 20),
            stamp(c * 20 + 19),
            &[(0, counts[0]), (1, counts[1])],
        ));
    }
    let index_pos = base + body.len() as u64;
    let mut out = MAGIC.to_vec();
    if indexed {
        out.extend(bag_header(index_pos, 2, 4));
    } else {
        out.extend(bag_header(0, 0, 0));
    }
    out.extend(body);
    if indexed {
        out.extend(connection(1, BETA, "std_msgs/String", "992ce8a1687cec8c8bd883ec73ca41d1"));
        out.extend(connection(0, ALPHA, "std_msgs/UInt32", "304a39449588c7f8ce2df6e8001c5fce"));
        for info in infos {
            out.extend(info);
        }
    }
    out
}

fn fixture() -> Vec<u8> {
    fixture_with(true, ["lz4", "bz2", "lz4", "bz2"])
}

fn unindexed_fixture() -> Vec<u8> {
    fixture_with(false, ["lz4", "bz2", "lz4", "bz2"])
}

/// What a message is, apart from where its bytes live.
#[derive(Debug, Clone, PartialEq, Eq)]
struct Seen {
    topic: String,
    time: Time,
    data: Vec<u8>,
}

fn read_lazy(bag: &mut Bag, query: &Query) -> (Vec<Seen>, Option<Error>) {
    let mut out = Vec::new();
    let mut cursor = bag.read_messages(query);
    loop {
        match bag.next_message(&mut cursor) {
            Ok(Some(m)) => out.push(Seen {
                topic: m.topic.to_string(),
                time: m.time,
                data: m.data.to_vec(),
            }),
            Ok(None) => return (out, None),
            Err(e) => return (out, Some(e)),
        }
    }
}

fn read_eager(bag: &DecompressedBag, query: &Query) -> (Vec<Seen>, Option<Error>) {
    let mut out = Vec::new();
    let mut cursor = bag.read_messages(query);
    loop {
        match bag.next_message(&mut cursor) {
            Ok(Some(m)) => out.push(Seen {
                topic: m.topic.to_string(),
                time: m.time,
                data: m.data.to_vec(),
            }),
            Ok(None) => return (out, None),
            Err(e) => return (out, Some(e)),
        }
    }
}

fn expected(k: u32) -> Seen {
    let (secs, nsecs) = stamp(k);
    Seen {
        topic: if conn_of(k) == 0 { ALPHA.to_string() } else { BETA.to_string() },
        time: Time { secs, nsecs },
        data: payload(k),
    }
}

fn topic_query(topic: &str) -> Query {
    Query::by_topic(vec![topic.to_string()])
}

#[test]
fn fixture_scenario() {
    let mut bag = Bag::from_bytes(fixture()).unwrap();
    {
        let metadata = bag.metadata();
        assert_eq!(metadata.topics(), vec![ALPHA.to_string(), BETA.to_string()]);
        assert_eq!(metadata.message_count(), 80);
        let info = metadata.compression_info();
        assert_eq!(info.len(), 2);
        assert_eq!(info[0].name, "lz4");
        assert_eq!(info[1].name, "bz2");
        assert_eq!(info[0].chunk_count + info[1].chunk_count, 4);
        assert_eq!(metadata.chunks().len(), 4);
        assert_eq!(metadata.built_from(), Origin::Indexed);
    }
    let (seen, fault) = read_lazy(&mut bag, &topic_query(ALPHA));
    assert_eq!(fault, None);
    assert_eq!(seen.len(), 50);
    assert!(seen.iter().all(|m| m.topic == ALPHA));
}

#[test]
fn all_messages_are_counted_and_in_time_order() {
    let mut bag = Bag::from_bytes(fixture()).unwrap();
    let count = bag.metadata().message_count();
    let (seen, fault) = read_lazy(&mut bag, &Query::all());
    assert_eq!(fault, None);
    assert_eq!(seen.len() as u64, count);
    for k in 0..80u32 {
        assert_eq!(seen[k as usize], expected(k));
    }
    for pair in seen.windows(2) {
        assert!(pair[0].time <= pair[1].time);
    }
}

#[test]
fn topic_queries_agree_with_topic_counts() {
    let mut bag = Bag::from_bytes(fixture()).unwrap();
    let counts: Vec<(String, u64)> = bag.metadata().topic_message_counts().clone();
    assert_eq!(counts, vec![(BETA.to_string(), 30), (ALPHA.to_string(), 50)]);
    for (topic, count) in counts {
        let (seen, fault) = read_lazy(&mut bag, &topic_query(&topic));
        assert_eq!(fault, None);
        assert_eq!(seen.len() as u64, count);
    }
}

#[test]
fn time_ranges_hold_both_ends_and_partition() {
    let mut bag = Bag::from_bytes(fixture()).unwrap();
    let start = Time { secs: 101, nsecs: 5000 };
    let end = Time { secs: 105, nsecs: 2000 };
    let (seen, fault) = read_lazy(&mut bag, &Query::by_time(start, end));
    assert_eq!(fault, None);
    let wanted: Vec<Seen> = (15..=52).map(expected).collect();
    assert_eq!(seen, wanted);
    assert!(seen.iter().all(|m| start <= m.time && m.time <= end));

    let first = Time { secs: 100, nsecs: 0 };
    let last = Time { secs: 107, nsecs: 9000 };
    let cut = Time { secs: 103, nsecs: 4000 };
    let after_cut = Time { secs: 103, nsecs: 4001 };
    let (whole, _) = read_lazy(&mut bag, &Query::by_time(first, last));
    let (left, _) = read_lazy(&mut bag, &Query::by_time(first, cut));
    let (right, _) = read_lazy(&mut bag, &Query::by_time(after_cut, last));
    assert_eq!(whole.len(), 80);
    assert_eq!(left.len(), 35);
    assert_eq!(right.len(), 45);
    let mut joined = left;
    joined.extend(right);
    assert_eq!(joined, whole);
}

#[test]
fn query_dimensions_combine() {
    let mut bag = Bag::from_bytes(fixture()).unwrap();
    let query = topic_query(BETA)
        .with_time(Time { secs: 100, nsecs: 0 }, Time { secs: 100, nsecs: 9000 });
    let (seen, fault) = read_lazy(&mut bag, &query);
    assert_eq!(fault, None);
    assert_eq!(seen, vec![expected(5), expected(6), expected(7)]);
}

#[test]
fn empty_topic_set_matches_nothing() {
    let mut bag = Bag::from_bytes(fixture()).unwrap();
    let (seen, fault) = read_lazy(&mut bag, &Query::by_topic(Vec::new()));
    assert_eq!(fault, None);
    assert!(seen.is_empty());
    let (seen, _) = read_lazy(&mut bag, &topic_query("/gamma"));
    assert!(seen.is_empty());
}

fn summary(metadata: &BagMetadata) -> (Vec<String>, Vec<String>, u64, Vec<(String, u64)>, Option<Time>, Option<Time>) {
    let mut counts = metadata.topic_message_counts().clone();
    counts.sort();
    (
        metadata.topics(),
        metadata.types(),
        metadata.message_count(),
        counts,
        metadata.start_time(),
        metadata.end_time(),
    )
}

#[test]
fn index_and_scan_give_the_same_summary() {
    let indexed = BagMetadata::from_bytes(&fixture()).unwrap();
    let scanned = BagMetadata::from_bytes(&unindexed_fixture()).unwrap();
    assert_eq!(indexed.built_from(), Origin::Indexed);
    assert_eq!(scanned.built_from(), Origin::Scanned);
    assert_eq!(summary(&indexed), summary(&scanned));
    assert_eq!(indexed.compression_info(), scanned.compression_info());
    assert_eq!(indexed.start_time(), Some(Time { secs: 100, nsecs: 0 }));
    assert_eq!(indexed.end_time(), Some(Time { secs: 107, nsecs: 9000 }));

    let bytes = fixture();
    let by_index: Catalog = read_indexed(&bytes).unwrap();
    let by_scan: Catalog = read_scanned(&bytes).unwrap();
    assert_eq!(by_index.chunks, by_scan.chunks);
    let mut left = by_index.connections.clone();
    left.sort_by_key(|c| c.id);
    assert_eq!(left, by_scan.connections);
}

#[test]
fn unindexed_recording_reads_the_same_messages() {
    let mut indexed = Bag::from_bytes(fixture()).unwrap();
    let mut scanned = Bag::from_bytes(unindexed_fixture()).unwrap();
    assert_eq!(read_lazy(&mut indexed, &Query::all()), read_lazy(&mut scanned, &Query::all()));
}

#[test]
fn opening_the_same_bytes_twice_gives_the_same() {
    let mut one = Bag::from_bytes(fixture()).unwrap();
    let mut two = Bag::from_bytes(fixture()).unwrap();
    assert_eq!(one.metadata(), two.metadata());
    assert_eq!(read_lazy(&mut one, &Query::all()), read_lazy(&mut two, &Query::all()));
}

#[test]
fn materialized_handle_reads_what_the_lazy_one_reads() {
    let bytes = fixture();
    let eager = DecompressedBag::from_bytes(&bytes).unwrap();
    let mut lazy = Bag::from_bytes(bytes).unwrap();
    assert_eq!(eager.metadata(), lazy.metadata());
    for query in [Query::all(), topic_query(BETA), Query::by_time(Time { secs: 102, nsecs: 0 }, Time { secs: 104, nsecs: 0 })] {
        assert_eq!(read_eager(&eager, &query), read_lazy(&mut lazy, &query));
    }
    let (seen, _) = read_eager(&eager, &Query::all());
    assert_eq!(seen.len(), 80);
}

#[test]
fn a_second_pass_reads_the_same_as_the_first() {
    let mut bag = Bag::from_bytes(fixture()).unwrap();
    let cold = read_lazy(&mut bag, &Query::all());
    let warm = read_lazy(&mut bag, &Query::all());
    assert_eq!(cold, warm);
    let query = Query::by_time(Time { secs: 107, nsecs: 0 }, Time { secs: 107, nsecs: 9000 });
    let last_chunk_warm = read_lazy(&mut bag, &query);
    let mut fresh = Bag::from_bytes(fixture()).unwrap();
    assert_eq!(last_chunk_warm, read_lazy(&mut fresh, &query));
}

#[test]
fn cache_hit_keeps_the_buffer() {
    let bytes = fixture();
    let catalog = read_indexed(&bytes).unwrap();
    let mut cache = ChunkCache::new();
    assert!(!cache.has(catalog.chunks[0].chunk.offset));
    cache.load(&bytes, &catalog.chunks[0].chunk).unwrap();
    let cold = cache.buffer().to_vec();
    assert_eq!(cold.len() as u32, catalog.chunks[0].chunk.size);
    assert!(cache.has(catalog.chunks[0].chunk.offset));
    cache.load(&bytes, &catalog.chunks[0].chunk).unwrap();
    assert_eq!(cache.buffer(), &cold[..]);
    cache.load(&bytes, &catalog.chunks[1].chunk).unwrap();
    assert!(!cache.has(catalog.chunks[0].chunk.offset));
    assert_ne!(cache.buffer(), &cold[..]);
    cache.load(&bytes, &catalog.chunks[0].chunk).unwrap();
    assert_eq!(cache.buffer(), &cold[..]);
}

#[test]
fn truncated_recording_fails_to_open() {
    let bytes = fixture();
    for cut in [0, 5, 12, 13, 20, 4000, 4108, 4110, 4200, bytes.len() - 1, bytes.len() - 40] {
        let part = bytes[..cut].to_vec();
        match Bag::from_bytes(part) {
            Err(Error::InvalidFormat) => assert!(cut < 13),
            Err(Error::MalformedRecord) => assert!(cut >= 13),
            other => panic!("cut at {}: {:?}", cut, other.map(|_| ())),
        }
    }
}

#[test]
fn recording_cut_after_a_record_opens_by_scan() {
    let bytes = fixture();
    let mut bag = Bag::from_bytes(bytes[..13 + 4096].to_vec()).unwrap();
    assert_eq!(bag.metadata().built_from(), Origin::Scanned);
    assert_eq!(bag.metadata().message_count(), 0);
    let (seen, fault) = read_lazy(&mut bag, &Query::all());
    assert!(seen.is_empty());
    assert_eq!(fault, None);
}

#[test]
fn wrong_version_line_is_invalid_format() {
    let mut bytes = fixture();
    bytes[9] = b'1';
    assert_eq!(Bag::from_bytes(bytes).err(), Some(Error::InvalidFormat));
    assert_eq!(BagMetadata::from_bytes(b"#ROSBAG V2.0").err(), Some(Error::InvalidFormat));
    assert_eq!(DecompressedBag::from_bytes(b"").err(), Some(Error::InvalidFormat));
}

#[test]
fn missing_index_is_soft() {
    let bytes = unindexed_fixture();
    assert_eq!(read_indexed(&bytes).err(), Some(Error::MissingIndex));
    let (catalog, origin) = read_catalog(&bytes).unwrap();
    assert_eq!(origin, Origin::Scanned);
    assert_eq!(catalog.chunks.len(), 4);
    assert_eq!(catalog.connections.len(), 2);
}

#[test]
fn unknown_codec_fails_where_its_chunk_is_read() {
    let bytes = fixture_with(true, ["lz4", "zstd", "lz4", "bz2"]);
    let mut bag = Bag::from_bytes(bytes.clone()).unwrap();
    let (seen, fault) = read_lazy(&mut bag, &Query::all());
    assert_eq!(seen.len(), 20);
    assert_eq!(fault, Some(Error::UnsupportedCompression("zstd".to_string())));
    let first_chunk = Query::by_time(Time { secs: 100, nsecs: 0 }, Time { secs: 101, nsecs: 9000 });
    let (seen, fault) = read_lazy(&mut bag, &first_chunk);
    assert_eq!(seen.len(), 20);
    assert_eq!(fault, None);
    assert_eq!(
        DecompressedBag::from_bytes(&bytes).err(),
        Some(Error::UnsupportedCompression("zstd".to_string()))
    );
    let unindexed = fixture_with(false, ["lz4", "zstd", "lz4", "bz2"]);
    assert_eq!(
        Bag::from_bytes(unindexed).err(),
        Some(Error::UnsupportedCompression("zstd".to_string()))
    );
}

#[test]
fn corrupt_payload_is_a_decompression_error() {
    let raw = b"some bytes that are long enough to be worth compressing, compressing".to_vec();
    let mut stored = lz4(&raw);
    assert_eq!(decompress(Codec::Lz4, &stored, raw.len()).unwrap(), raw);
    assert_eq!(decompress(Codec::Lz4, &stored, raw.len() + 1).err(), Some(Error::DecompressionError));
    let last = stored.len() - 6;
    stored[last] ^= 0xff;
    stored[2] ^= 0xff;
    assert_eq!(decompress(Codec::Lz4, &stored, raw.len()).err(), Some(Error::DecompressionError));
    assert_eq!(decompress(Codec::Bz2, &raw, raw.len()).err(), Some(Error::DecompressionError));
    assert_eq!(decompress(Codec::Identity, &raw, raw.len() - 1).err(), Some(Error::DecompressionError));
}

#[test]
fn codecs_decompress() {
    let raw: Vec<u8> = (0..2000u32).flat_map(|k| le32(k % 7)).collect();
    let packed = lz4(&raw);
    assert_ne!(packed, raw);
    assert_eq!(decompress(Codec::Lz4, &packed, raw.len()).unwrap(), raw);
    let packed = bz2(&raw);
    assert_ne!(packed, raw);
    assert_eq!(decompress(Codec::Bz2, &packed, raw.len()).unwrap(), raw);
    assert_eq!(decompress(Codec::Identity, &raw, raw.len()).unwrap(), raw);
    assert_eq!(Codec::from_name("lz4"), Ok(Codec::Lz4));
    assert_eq!(Codec::from_name("bz2"), Ok(Codec::Bz2));
    assert_eq!(Codec::from_name("none"), Ok(Codec::Identity));
    assert_eq!(Codec::from_name("LZ4"), Err(Error::UnsupportedCompression("LZ4".to_string())));
    assert_eq!(Codec::Lz4.name(), "lz4");
}

#[test]
fn uncompressed_chunks_and_shared_topics() {
    let mut raw = Vec::new();
    raw.extend(connection(3, "/t", "pkg/A", "*"));
    raw.extend(connection(9, "/t", "pkg/A", "*"));
    raw.extend(message(3, 7, 1, b"ab"));
    raw.extend(message(9, 7, 2, b"cde"));
    raw.extend(message(3, 8, 0, b""));
    let mut bytes = MAGIC.to_vec();
    bytes.extend(bag_header(0, 0, 0));
    bytes.extend(chunk("none", &raw));
    let length = bytes.len() as u64;
    let mut bag = Bag::from_bytes(bytes).unwrap();
    {
        let metadata = bag.metadata();
        assert_eq!(metadata.topics(), vec!["/t".to_string()]);
        assert_eq!(metadata.types(), vec!["pkg/A".to_string()]);
        assert_eq!(metadata.topics_and_types(), vec![("/t".to_string(), "pkg/A".to_string())]);
        assert_eq!(metadata.topic_message_counts(), &vec![("/t".to_string(), 3)]);
        assert_eq!(metadata.connection_data().len(), 2);
        assert_eq!(metadata.message_count(), 3);
        assert_eq!(metadata.num_bytes(), length);
        assert_eq!(metadata.version(), "2.0");
        assert_eq!(metadata.file_path(), None);
        let d = metadata.duration().unwrap();
        assert_eq!((d.secs, d.nsecs), (0, 999_999_999));
        let info = metadata.compression_info();
        assert_eq!(info.len(), 1);
        assert_eq!(info[0].name, "none");
        assert_eq!(info[0].chunk_count, 1);
        assert_eq!(info[0].total_compressed, raw.len() as u64);
        assert_eq!(info[0].total_uncompressed, raw.len() as u64);
    }
    let (seen, fault) = read_lazy(&mut bag, &topic_query("/t"));
    assert_eq!(fault, None);
    let sizes: Vec<usize> = seen.iter().map(|m| m.data.len()).collect();
    assert_eq!(sizes, vec![2, 3, 0]);
}

#[test]
fn recording_without_chunks_has_no_times() {
    let mut bytes = MAGIC.to_vec();
    bytes.extend(bag_header(0, 0, 0));
    let mut bag = Bag::from_bytes(bytes).unwrap();
    assert_eq!(bag.metadata().start_time(), None);
    assert_eq!(bag.metadata().end_time(), None);
    assert_eq!(bag.metadata().duration(), None);
    assert_eq!(bag.metadata().message_count(), 0);
    assert!(bag.metadata().topics().is_empty());
    let (seen, fault) = read_lazy(&mut bag, &Query::all());
    assert!(seen.is_empty());
    assert_eq!(fault, None);
}

#[test]
fn message_of_unknown_connection_is_malformed() {
    let mut raw = Vec::new();
    raw.extend(connection(1, "/t", "pkg/A", "*"));
    raw.extend(message(1, 7, 1, b"ab"));
    raw.extend(message(2, 7, 2, b"cd"));
    let mut bytes = MAGIC.to_vec();
    let pos = (13 + 4096) as u64;
    let body = chunk("none", &raw);
    bytes.extend(bag_header(pos + body.len() as u64, 1, 1));
    bytes.extend(body);
    bytes.extend(connection(1, "/t", "pkg/A", "*"));
    bytes.extend(chunk_info(pos, (7, 1), (7, 2), &[(1, 1), (2, 1)]));
    let mut bag = Bag::from_bytes(bytes).unwrap();
    let (seen, fault) = read_lazy(&mut bag, &Query::all());
    assert_eq!(seen.len(), 1);
    assert_eq!(fault, Some(Error::MalformedRecord));
}

#[test]
fn message_size_is_payload_length() {
    let bag = DecompressedBag::from_bytes(&fixture()).unwrap();
    let query = Query::all();
    let mut cursor = bag.read_messages(&query);
    let mut total = 0u64;
    let mut n = 0u32;
    while let Some(m) = bag.next_message(&mut cursor).unwrap() {
        assert_eq!(m.size(), payload(n).len() as u64);
        assert_eq!(m.conn, conn_of(n));
        total += m.size();
        n += 1;
    }
    assert_eq!(n, 80);
    assert_eq!(total, (0..80u32).map(|k| 4 * (4 + k % 3) as u64).sum::<u64>());
}

#[test]
fn size_table_sums_payloads_per_topic_and_type() {
    let bag = DecompressedBag::from_bytes(&fixture()).unwrap();
    let on_alpha: u64 = (0..80u32).filter(|k| conn_of(*k) == 0).map(|k| payload(k).len() as u64).sum();
    let on_beta: u64 = (0..80u32).filter(|k| conn_of(*k) == 1).map(|k| payload(k).len() as u64).sum();
    assert!(on_alpha > on_beta);
    assert_eq!(
        size_rows(&bag, false),
        Ok(Some(vec![(ALPHA.to_string(), on_alpha), (BETA.to_string(), on_beta)]))
    );
    assert_eq!(
        size_rows(&bag, true),
        Ok(Some(vec![
            ("std_msgs/UInt32".to_string(), on_alpha),
            ("std_msgs/String".to_string(), on_beta)
        ]))
    );
}

#[test]
fn size_table_puts_the_largest_first() {
    let mut raw = Vec::new();
    raw.extend(connection(1, "/small", "pkg/A", "*"));
    raw.extend(connection(2, "/large", "pkg/B", "*"));
    raw.extend(connection(3, "/middle", "pkg/A", "*"));
    raw.extend(message(1, 7, 1, b"a"));
    raw.extend(message(2, 7, 2, b"0123456789"));
    raw.extend(message(3, 7, 3, b"abc"));
    raw.extend(message(1, 7, 4, b"b"));
    let mut bytes = MAGIC.to_vec();
    bytes.extend(bag_header(0, 0, 0));
    bytes.extend(chunk("lz4", &raw));
    let bag = DecompressedBag::from_bytes(&bytes).unwrap();
    assert_eq!(
        size_rows(&bag, false),
        Ok(Some(vec![
            ("/large".to_string(), 10),
            ("/middle".to_string(), 3),
            ("/small".to_string(), 2)
        ]))
    );
    assert_eq!(
        size_rows(&bag, true),
        Ok(Some(vec![("pkg/B".to_string(), 10), ("pkg/A".to_string(), 5)]))
    );
}

#[test]
fn report_tables_are_in_ascending_order() {
    let mut raw = Vec::new();
    raw.extend(connection(1, "/zebra", "pkg/B", "d1"));
    raw.extend(connection(2, "/apple", "pkg/A", "d2"));
    raw.extend(connection(3, "/mango", "pkg/B", "d3"));
    raw.extend(connection(4, "/apple", "pkg/A", "d2"));
    raw.extend(connection(5, "/Zulu/long_name", "pkg/Longer", "d1"));
    raw.extend(message(1, 7, 1, b"a"));
    raw.extend(message(2, 7, 2, b"b"));
    raw.extend(message(4, 7, 3, b"c"));
    let mut bytes = MAGIC.to_vec();
    bytes.extend(bag_header(0, 0, 0));
    bytes.extend(chunk("bz2", &raw));
    let metadata = BagMetadata::from_bytes(&bytes).unwrap();
    assert_eq!(
        metadata.topics(),
        vec!["/Zulu/long_name".to_string(), "/apple".to_string(), "/mango".to_string(), "/zebra".to_string()]
    );
    assert_eq!(
        metadata.types(),
        vec!["pkg/A".to_string(), "pkg/B".to_string(), "pkg/Longer".to_string()]
    );
    assert_eq!(
        type_rows(&metadata),
        vec![
            ("pkg/A".to_string(), "d2".to_string()),
            ("pkg/B".to_string(), "d1".to_string()),
            ("pkg/B".to_string(), "d3".to_string()),
            ("pkg/Longer".to_string(), "d1".to_string()),
        ]
    );
    let row = |topic: &str, data_type: &str, count: u64| TopicRow {
        topic: topic.to_string(),
        data_type: data_type.to_string(),
        count,
    };
    assert_eq!(
        topic_rows(&metadata),
        vec![
            row("/Zulu/long_name", "pkg/Longer", 0),
            row("/apple", "pkg/A", 2),
            row("/mango", "pkg/B", 0),
            row("/zebra", "pkg/B", 1),
        ]
    );
    assert_eq!(max_topic_len(&metadata), 15);
    assert_eq!(max_type_len(&metadata), 10);
    assert_eq!(metadata.topic_message_count(&"/apple".to_string()), 2);
    assert_eq!(metadata.topic_message_count(&"/nowhere".to_string()), 0);
}

#[test]
fn size_scales() {
    assert_eq!(size_scale(0), Scale { unit: SizeUnit::Bytes, divisions: 0 });
    assert_eq!(size_scale(1023), Scale { unit: SizeUnit::Bytes, divisions: 0 });
    assert_eq!(size_scale(1024), Scale { unit: SizeUnit::Kilobytes, divisions: 1 });
    assert_eq!(size_scale(1024 * 1024 - 1), Scale { unit: SizeUnit::Kilobytes, divisions: 1 });
    assert_eq!(size_scale(1024 * 1024), Scale { unit: SizeUnit::Megabytes, divisions: 2 });
    assert_eq!(size_scale(1 << 30), Scale { unit: SizeUnit::Gigabytes, divisions: 3 });
    assert_eq!(size_scale((1 << 40) - 1), Scale { unit: SizeUnit::Gigabytes, divisions: 3 });
    assert_eq!(size_scale(1 << 40), Scale { unit: SizeUnit::Gigabytes, divisions: 4 });
    assert_eq!(size_scale(u64::MAX), Scale { unit: SizeUnit::Gigabytes, divisions: 4 });
    assert_eq!(SizeUnit::Bytes.label(), "bytes");
    assert_eq!(SizeUnit::Kilobytes.label(), "KB");
    assert_eq!(SizeUnit::Megabytes.label(), "MB");
    assert_eq!(SizeUnit::Gigabytes.label(), "GB");
}

#[test]
fn chunk_index_finds_every_message() {
    let bytes = fixture();
    let eager = DecompressedBag::from_bytes(&bytes).unwrap();
    let mut bag = Bag::from_bytes(bytes).unwrap();
    let mut found = 0u32;
    for chunk in 0..4usize {
        let entries = bag.chunk_index(chunk).unwrap();
        assert_eq!(entries.len(), 20);
        for entry in entries {
            let k = (0..80u32).find(|k| stamp(*k) == (entry.time.secs, entry.time.nsecs)).unwrap();
            assert_eq!(entry.conn, conn_of(k));
            let m = bag.message_at(chunk, entry.offset).unwrap().unwrap();
            assert_eq!((m.topic.to_string(), m.time, m.data.to_vec()), (expected(k).topic, expected(k).time, payload(k)));
            let m = eager.message_at(chunk, entry.offset).unwrap();
            assert_eq!(m.data, &payload(k)[..]);
            found += 1;
        }
    }
    assert_eq!(found, 80);
    assert_eq!(bag.chunk_index(4), None);
    assert!(bag.message_at(4, 0).unwrap().is_none());
    assert!(bag.message_at(0, 1).unwrap().is_none());
    assert!(eager.message_at(4, 0).is_none());
    assert!(eager.message_at(0, u32::MAX).is_none());
}

#[test]
fn handles_keep_their_file_path() {
    let bag = Bag::from_bytes(fixture()).unwrap().with_file_path("a.bag".to_string());
    assert_eq!(bag.metadata().file_path(), Some(&"a.bag".to_string()));
    assert_eq!(bag.metadata().message_count(), 80);
    let eager = DecompressedBag::from_bytes(&fixture()).unwrap().with_file_path("b.bag".to_string());
    assert_eq!(eager.metadata().file_path(), Some(&"b.bag".to_string()));
    let metadata = BagMetadata::from_bytes(&fixture()).unwrap();
    assert_eq!(metadata.file_path(), None);
    assert_eq!(metadata.with_file_path("c.bag".to_string()).file_path(), Some(&"c.bag".to_string()));
}

#[test]
fn index_has_to_name_chunks_in_file_order() {
    let mut raw = Vec::new();
    raw.extend(connection(1, "/t", "pkg/A", "*"));
    raw.extend(message(1, 7, 1, b"ab"));
    let one = chunk("none", &raw);
    let first = (13 + 4096) as u64;
    let second = first + one.len() as u64;
    let build = |order: [u64; 2]| {
        let mut bytes = MAGIC.to_vec();
        bytes.extend(bag_header(second + one.len() as u64, 1, 2));
        bytes.extend(&one);
        bytes.extend(&one);
        bytes.extend(connection(1, "/t", "pkg/A", "*"));
        for pos in order {
            bytes.extend(chunk_info(pos, (7, 1), (7, 1), &[(1, 1)]));
        }
        bytes
    };
    let bag = Bag::from_bytes(build([first, second])).unwrap();
    assert_eq!(bag.metadata().message_count(), 2);
    let offsets: Vec<usize> = bag.metadata().chunks().iter().map(|c| c.chunk.offset).collect();
    assert_eq!(offsets, vec![first as usize, second as usize]);
    assert_eq!(Bag::from_bytes(build([second, first])).err(), Some(Error::MalformedRecord));
    assert_eq!(Bag::from_bytes(build([first, first])).err(), Some(Error::MalformedRecord));
    assert_eq!(Bag::from_bytes(build([first, second + 1])).err(), Some(Error::MalformedRecord));
}

#[test]
fn index_with_other_counts_than_declared_is_missing() {
    let mut raw = Vec::new();
    raw.extend(connection(1, "/t", "pkg/A", "*"));
    raw.extend(message(1, 7, 1, b"ab"));
    let one = chunk("none", &raw);
    let first = (13 + 4096) as u64;
    let mut bytes = MAGIC.to_vec();
    bytes.extend(bag_header(first + one.len() as u64, 1, 2));
    bytes.extend(&one);
    bytes.extend(connection(1, "/t", "pkg/A", "*"));
    bytes.extend(chunk_info(first, (7, 1), (7, 1), &[(1, 5)]));
    assert_eq!(read_indexed(&bytes).err(), Some(Error::MissingIndex));
    let bag = Bag::from_bytes(bytes).unwrap();
    assert_eq!(bag.metadata().built_from(), Origin::Scanned);
    assert_eq!(bag.metadata().message_count(), 1);
}

#[test]
fn chunk_info_with_times_out_of_order_is_malformed() {
    let mut raw = Vec::new();
    raw.extend(connection(1, "/t", "pkg/A", "*"));
    raw.extend(message(1, 7, 1, b"ab"));
    let one = chunk("none", &raw);
    let first = (13 + 4096) as u64;
    let mut bytes = MAGIC.to_vec();
    bytes.extend(bag_header(first + one.len() as u64, 1, 1));
    bytes.extend(&one);
    bytes.extend(connection(1, "/t", "pkg/A", "*"));
    bytes.extend(chunk_info(first, (7, 2), (7, 1), &[(1, 1)]));
    assert_eq!(Bag::from_bytes(bytes).err(), Some(Error::MalformedRecord));
}
