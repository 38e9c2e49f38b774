use frost::bytes::{read_u32, read_u64, span_is, to_index};
use frost::catalog::{
    add_connection, check_magic, find_connection, read_chunk_at, read_connection, read_counts,
    Connection,
};
use frost::errors::Error;
use frost::index::{read_chunk_index, read_message_at, IndexEntry};
use frost::names::{holds_text, sorted_unique, unique};
use frost::query::{has_topic, Query};
use frost::record::{
    find_equals, find_field, get_time, get_u32, get_u64, get_u8, header_ok, parse_record,
    read_frame, Frame, Parsed, Record, Span,
};
use frost::scan::{bump_count, tally_chunk, widen_span};
use frost::text::{read_text, same_text};
use frost::time::{Duration, Time};
use frost::totals::add_checked;

fn u32le(x: u32) -> Vec<u8> {
    x.to_le_bytes().to_vec()
}

fn one_field(name: &str, value: &[u8]) -> Vec<u8> {
    let mut out = u32le((name.len() + 1 + value.len()) as u32);
    out.extend(name.as_bytes());
    out.push(b'=');
    out.extend(value);
    out
}

fn one_record(fields: &[Vec<u8>], data: &[u8]) -> Vec<u8> {
    let header: Vec<u8> = fields.concat();
    let mut out = u32le(header.len() as u32);
    out.extend(header);
    out.extend(u32le(data.len() as u32));
    out.extend(data);
    out
}

fn stamp_bytes(secs: u32, nsecs: u32) -> Vec<u8> {
    let mut out = u32le(secs);
    out.extend(u32le(nsecs));
    out
}

fn strings(names: &[&str]) -> Vec<String> {
    names.iter().map(|n| n.to_string()).collect()
}

#[test]
fn little_endian_integers() {
    let data = [0x78, 0x56, 0x34, 0x12, 0xef, 0xcd, 0xab, 0x90, 0xff];
    assert_eq!(read_u32(&data, 0), Some(0x12345678));
    assert_eq!(read_u32(&data, 4), Some(0x90abcdef));
    assert_eq!(read_u32(&data, 5), Some(0xff90abcd));
    assert_eq!(read_u32(&data, 6), None);
    assert_eq!(read_u32(&data, usize::MAX), None);
    assert_eq!(read_u32(&[1, 2, 3], 0), None);
    assert_eq!(read_u64(&data, 0), Some(0x90abcdef12345678));
    assert_eq!(read_u64(&data, 1), Some(0xff90abcdef123456));
    assert_eq!(read_u64(&data, 2), None);
    assert_eq!(read_u32(&[255, 255, 255, 255], 0), Some(u32::MAX));
    assert_eq!(read_u64(&[255; 8], 0), Some(u64::MAX));
}

#[test]
fn spans_and_indices() {
    let data = b"conn=abc";
    assert!(span_is(data, 0, 4, b"conn"));
    assert!(!span_is(data, 0, 4, b"cont"));
    assert!(!span_is(data, 0, 4, b"con"));
    assert!(span_is(data, 5, 8, b"abc"));
    assert!(span_is(data, 3, 3, b""));
    assert_eq!(to_index(17), Some(17));
    assert_eq!(to_index(u64::MAX), usize::try_from(u64::MAX).ok());
    assert_eq!(Span { start: 3, end: 10 }.len(), 7);
    assert_eq!(add_checked(3, 4), Some(7));
    assert_eq!(add_checked(u64::MAX, 0), Some(u64::MAX));
    assert_eq!(add_checked(u64::MAX, 1), None);
}

#[test]
fn times_are_ordered_by_nanoseconds() {
    assert_eq!(Time::new(1, 999_999_999), Some(Time { secs: 1, nsecs: 999_999_999 }));
    assert_eq!(Time::new(1, 1_000_000_000), None);
    let early = Time { secs: 5, nsecs: 999_999_999 };
    let late = Time { secs: 6, nsecs: 0 };
    assert_eq!(early.as_nanos(), 5_999_999_999);
    assert_eq!(Time { secs: u32::MAX, nsecs: 999_999_999 }.as_nanos(), 4_294_967_295_999_999_999);
    assert!(early.lt(&late) && early.le(&late) && !late.lt(&early) && !late.le(&early));
    assert!(early.le(&early) && !early.lt(&early));
    assert!(early < late);
    assert_eq!(late.since(&early), Some(Duration { secs: 0, nsecs: 1 }));
    assert_eq!(early.since(&late), None);
    assert_eq!(early.since(&early), Some(Duration { secs: 0, nsecs: 0 }));
    assert_eq!(
        Time { secs: 10, nsecs: 5 }.since(&Time { secs: 3, nsecs: 7 }),
        Some(Duration { secs: 6, nsecs: 999_999_998 })
    );
}

#[test]
fn frames_and_fields() {
    let header = [one_field("op", &[2]), one_field("conn", &u32le(9)), one_field("a=b", b"c")].concat();
    let bytes = one_record(
        &[one_field("op", &[2]), one_field("conn", &u32le(9)), one_field("a=b", b"c")],
        b"payload",
    );
    let frame = read_frame(&bytes, 0).unwrap();
    assert_eq!(
        frame,
        Frame {
            header: Span { start: 4, end: 4 + header.len() },
            data: Span { start: 8 + header.len(), end: bytes.len() },
        }
    );
    assert_eq!(read_frame(&bytes[..bytes.len() - 1], 0), None);
    assert_eq!(read_frame(&bytes, 1), None);
    assert_eq!(read_frame(&bytes[..3], 0), None);
    assert!(header_ok(&bytes, frame.header));
    assert!(!header_ok(&bytes, Span { start: 4, end: frame.header.end - 1 }));
    assert!(header_ok(&bytes, Span { start: 4, end: 4 }));
    assert_eq!(find_field(&bytes, frame.header, b"op"), Some(Span { start: 11, end: 12 }));
    assert_eq!(find_field(&bytes, frame.header, b"o"), None);
    assert_eq!(find_field(&bytes, frame.header, b"a"), Some(Span { start: 31, end: 34 }));
    assert_eq!(&bytes[31..34], b"b=c");
    assert_eq!(get_u8(&bytes, frame.header, b"op"), Some(2));
    assert_eq!(get_u8(&bytes, frame.header, b"conn"), None);
    assert_eq!(get_u32(&bytes, frame.header, b"conn"), Some(9));
    assert_eq!(get_u32(&bytes, frame.header, b"op"), None);
    assert_eq!(get_u64(&bytes, frame.header, b"conn"), None);
    assert_eq!(find_equals(b"ab=cd=", 0, 6), 2);
    assert_eq!(find_equals(b"ab=cd=", 3, 6), 5);
    assert_eq!(find_equals(b"ab=cd=", 3, 5), 5);
    let no_equals = one_record(&[[u32le(3), b"abc".to_vec()].concat()], b"");
    let frame = read_frame(&no_equals, 0).unwrap();
    assert!(!header_ok(&no_equals, frame.header));
    let timed = one_record(&[one_field("t", &stamp_bytes(3, 4)), one_field("bad", &stamp_bytes(3, 1_000_000_000))], b"");
    let frame = read_frame(&timed, 0).unwrap();
    assert_eq!(get_time(&timed, frame.header, b"t"), Some(Time { secs: 3, nsecs: 4 }));
    assert_eq!(get_time(&timed, frame.header, b"bad"), None);
    assert_eq!(get_u64(&timed, frame.header, b"t"), Some(4 << 32 | 3));
}

#[test]
fn records_by_kind() {
    let message = one_record(
        &[one_field("conn", &u32le(4)), one_field("time", &stamp_bytes(8, 9)), one_field("op", &[2])],
        b"xyz",
    );
    let end = message.len();
    assert_eq!(
        parse_record(&message, 0),
        Ok(Parsed {
            record: Record::MessageData {
                conn: 4,
                time: Time { secs: 8, nsecs: 9 },
                data: Span { start: end - 3, end },
            },
            next: end,
        })
    );
    let header = one_record(
        &[
            one_field("op", &[3]),
            one_field("index_pos", &77u64.to_le_bytes()),
            one_field("conn_count", &u32le(2)),
            one_field("chunk_count", &u32le(5)),
        ],
        b"    ",
    );
    assert_eq!(
        parse_record(&header, 0).map(|p| p.record),
        Ok(Record::BagHeader { index_pos: 77, conn_count: 2, chunk_count: 5 })
    );
    let chunk = one_record(
        &[one_field("op", &[5]), one_field("compression", b"lz4"), one_field("size", &u32le(100))],
        b"stored",
    );
    assert_eq!(
        parse_record(&chunk, 0).map(|p| p.record),
        Ok(Record::Chunk {
            compression: Span { start: 28, end: 31 },
            size: 100,
            data: Span { start: chunk.len() - 6, end: chunk.len() },
        })
    );
    let index = one_record(
        &[
            one_field("op", &[4]),
            one_field("ver", &u32le(1)),
            one_field("conn", &u32le(6)),
            one_field("count", &u32le(2)),
        ],
        &[0u8; 24],
    );
    assert_eq!(
        parse_record(&index, 0).map(|p| p.record),
        Ok(Record::IndexData {
            conn: 6,
            count: 2,
            data: Span { start: index.len() - 24, end: index.len() },
        })
    );
    let info = one_record(
        &[
            one_field("op", &[6]),
            one_field("ver", &u32le(1)),
            one_field("chunk_pos", &4109u64.to_le_bytes()),
            one_field("start_time", &stamp_bytes(1, 2)),
            one_field("end_time", &stamp_bytes(3, 4)),
            one_field("count", &u32le(1)),
        ],
        &[0u8; 8],
    );
    assert_eq!(
        parse_record(&info, 0).map(|p| p.record),
        Ok(Record::ChunkInfo {
            chunk_pos: 4109,
            start_time: Time { secs: 1, nsecs: 2 },
            end_time: Time { secs: 3, nsecs: 4 },
            count: 1,
            data: Span { start: info.len() - 8, end: info.len() },
        })
    );
    let two = [message.clone(), header.clone()].concat();
    assert_eq!(parse_record(&two, end).map(|p| p.next), Ok(two.len()));
}

#[test]
fn malformed_records() {
    let bad = |fields: &[Vec<u8>], data: &[u8]| {
        assert_eq!(parse_record(&one_record(fields, data), 0), Err(Error::MalformedRecord));
    };
    bad(&[one_field("conn", &u32le(4)), one_field("time", &stamp_bytes(8, 9))], b"");
    bad(&[one_field("op", &[9]), one_field("conn", &u32le(4))], b"");
    bad(&[one_field("op", &[2, 0]), one_field("conn", &u32le(4)), one_field("time", &stamp_bytes(8, 9))], b"");
    bad(&[one_field("op", &[2]), one_field("time", &stamp_bytes(8, 9))], b"");
    bad(&[one_field("op", &[2]), one_field("conn", &[4, 0]), one_field("time", &stamp_bytes(8, 9))], b"");
    bad(&[one_field("op", &[2]), one_field("conn", &u32le(4)), one_field("time", &stamp_bytes(8, 1_000_000_000))], b"");
    bad(&[one_field("op", &[5]), one_field("size", &u32le(4))], b"");
    bad(&[one_field("op", &[7]), one_field("conn", &u32le(4))], b"");
    bad(&[one_field("op", &[3]), one_field("index_pos", &u32le(4))], b"");
    bad(
        &[one_field("op", &[4]), one_field("ver", &u32le(1)), one_field("conn", &u32le(6)), one_field("count", &u32le(2))],
        &[0u8; 23],
    );
    bad(
        &[one_field("op", &[4]), one_field("ver", &u32le(2)), one_field("conn", &u32le(6)), one_field("count", &u32le(2))],
        &[0u8; 24],
    );
    let whole = one_record(&[one_field("op", &[2]), one_field("conn", &u32le(4)), one_field("time", &stamp_bytes(8, 9))], b"abc");
    for cut in 0..whole.len() {
        assert_eq!(parse_record(&whole[..cut], 0), Err(Error::MalformedRecord));
    }
    assert_eq!(parse_record(&whole, whole.len()), Err(Error::MalformedRecord));
    let mut long_header = whole.clone();
    long_header[0] = 200;
    assert_eq!(parse_record(&long_header, 0), Err(Error::MalformedRecord));
}

#[test]
fn text_is_utf8() {
    let data = "a/é€😀".as_bytes();
    assert_eq!(read_text(data, 0, data.len()), Some("a/é€😀".to_string()));
    assert_eq!(read_text(data, 2, 4), Some("é".to_string()));
    assert_eq!(read_text(data, 2, 3), None);
    assert_eq!(read_text(data, 3, 4), None);
    assert_eq!(read_text(&[0xff, 0x41], 0, 2), None);
    assert_eq!(read_text(&[0xff, 0x41], 1, 2), Some("A".to_string()));
    assert_eq!(read_text(data, 1, 1), Some(String::new()));
    assert!(same_text("lz4", "lz4"));
    assert!(!same_text("lz4", "lz"));
    assert!(!same_text("é", "e"));
    assert!(same_text("", ""));
}

#[test]
fn query_matches_topics_and_closed_time_ranges() {
    let topic = "/a".to_string();
    let other = "/b".to_string();
    let at = |secs: u32, nsecs: u32| Time { secs, nsecs };
    assert!(Query::all().matches(&topic, &at(0, 0)));
    assert!(Query::all().matches(&other, &at(u32::MAX, 999_999_999)));
    let by_topic = Query::by_topic(strings(&["/x", "/a"]));
    assert!(by_topic.matches(&topic, &at(1, 0)));
    assert!(!by_topic.matches(&other, &at(1, 0)));
    assert!(!Query::by_topic(Vec::new()).matches(&topic, &at(1, 0)));
    let by_time = Query::by_time(at(5, 10), at(7, 20));
    assert!(by_time.matches(&topic, &at(5, 10)));
    assert!(by_time.matches(&topic, &at(7, 20)));
    assert!(by_time.matches(&other, &at(6, 999_999_999)));
    assert!(!by_time.matches(&topic, &at(5, 9)));
    assert!(!by_time.matches(&topic, &at(7, 21)));
    assert!(!Query::by_time(at(7, 20), at(5, 10)).matches(&topic, &at(6, 0)));
    let both = Query::by_time(at(5, 10), at(7, 20)).with_topics(strings(&["/b"]));
    assert!(both.matches(&other, &at(6, 0)));
    assert!(!both.matches(&topic, &at(6, 0)));
    assert!(!both.matches(&other, &at(8, 0)));
    assert_eq!(Query::by_topic(strings(&["/b"])).with_time(at(5, 10), at(7, 20)), both);
    assert!(has_topic(&strings(&["/a", "/b"]), &other));
    assert!(!has_topic(&strings(&["/a", "/b"]), &"/c".to_string()));
}

#[test]
fn error_messages() {
    assert_eq!(Error::InvalidFormat.message(), "not a version 2.0 recording");
    assert_eq!(Error::MalformedRecord.message(), "malformed record");
    assert_eq!(
        Error::UnsupportedCompression("zstd".to_string()).message(),
        "unsupported compression: zstd"
    );
    assert_eq!(
        Error::DecompressionError.message(),
        "chunk does not decompress to its declared size"
    );
    assert_eq!(Error::MissingIndex.message(), "the recording has no index");
    assert_eq!(Error::Io.message(), "the byte source could not be read");
}

fn conn(id: u32, topic: &str) -> Connection {
    Connection {
        id,
        topic: topic.to_string(),
        data_type: "pkg/T".to_string(),
        md5sum: "*".to_string(),
    }
}

#[test]
fn connections_are_kept_once_per_number() {
    let mut conns = Vec::new();
    add_connection(&mut conns, conn(4, "/a"));
    add_connection(&mut conns, conn(2, "/b"));
    add_connection(&mut conns, conn(4, "/c"));
    assert_eq!(conns, vec![conn(4, "/a"), conn(2, "/b")]);
    assert_eq!(find_connection(&conns, 2), Some(1));
    assert_eq!(find_connection(&conns, 4), Some(0));
    assert_eq!(find_connection(&conns, 3), None);
}

#[test]
fn connection_records_need_type_and_digest() {
    let details = [one_field("type", b"pkg/T"), one_field("md5sum", b"abc"), one_field("topic", b"/inner")].concat();
    let mut bytes = b"/outer".to_vec();
    bytes.extend(&details);
    let topic = Span { start: 0, end: 6 };
    let data = Span { start: 6, end: bytes.len() };
    assert_eq!(
        read_connection(&bytes, 7, topic, data),
        Some(Connection {
            id: 7,
            topic: "/outer".to_string(),
            data_type: "pkg/T".to_string(),
            md5sum: "abc".to_string(),
        })
    );
    let only_type = one_field("type", b"pkg/T");
    assert_eq!(read_connection(&only_type, 7, Span { start: 0, end: 0 }, Span { start: 0, end: only_type.len() }), None);
    let bad_text = [one_field("type", &[0xff]), one_field("md5sum", b"abc")].concat();
    assert_eq!(read_connection(&bad_text, 7, Span { start: 0, end: 0 }, Span { start: 0, end: bad_text.len() }), None);
    assert_eq!(read_connection(&bytes, 7, topic, Span { start: 6, end: bytes.len() - 1 }), None);
}

#[test]
fn counts_and_chunks_are_read_in_place() {
    let mut data = Vec::new();
    for (a, b) in [(1u32, 10u32), (7, 0), (2, 99)] {
        data.extend(u32le(a));
        data.extend(u32le(b));
    }
    assert_eq!(read_counts(&data, Span { start: 0, end: 24 }, 3), vec![(1, 10), (7, 0), (2, 99)]);
    assert_eq!(read_counts(&data, Span { start: 8, end: 16 }, 1), vec![(7, 0)]);
    assert_eq!(read_counts(&data, Span { start: 8, end: 8 }, 0), Vec::new());
    let chunk = one_record(
        &[one_field("op", &[5]), one_field("compression", b"none"), one_field("size", &u32le(6))],
        b"stored",
    );
    let mut bytes = vec![0u8; 3];
    bytes.extend(&chunk);
    let found = read_chunk_at(&bytes, 3).unwrap();
    assert_eq!(found.offset, 3);
    assert_eq!(found.compression, "none");
    assert_eq!(found.size, 6);
    assert_eq!(&bytes[found.data.start..found.data.end], b"stored");
    assert_eq!(read_chunk_at(&bytes, 0), None);
    assert_eq!(read_chunk_at(&bytes, bytes.len()), None);
    assert!(check_magic(b"#ROSBAG V2.0\nrest"));
    assert!(!check_magic(b"#ROSBAG V2.0"));
    assert!(!check_magic(b"#ROSBAG V1.2\nrest"));
}

#[test]
fn tallies_count_by_connection() {
    let mut counts = Vec::new();
    bump_count(&mut counts, 5);
    bump_count(&mut counts, 3);
    bump_count(&mut counts, 5);
    assert_eq!(counts, vec![(5, 2), (3, 1)]);
    let at = |secs: u32, nsecs: u32| Time { secs, nsecs };
    assert_eq!(widen_span(None, at(4, 4)), Some((at(4, 4), at(4, 4))));
    assert_eq!(widen_span(Some((at(4, 4), at(5, 0))), at(4, 3)), Some((at(4, 3), at(5, 0))));
    assert_eq!(widen_span(Some((at(4, 4), at(5, 0))), at(5, 1)), Some((at(4, 4), at(5, 1))));
    assert_eq!(widen_span(Some((at(4, 4), at(5, 0))), at(4, 9)), Some((at(4, 4), at(5, 0))));

    let connection = |id: u32, topic: &str| {
        one_record(
            &[one_field("op", &[7]), one_field("conn", &u32le(id)), one_field("topic", topic.as_bytes())],
            &[one_field("type", b"pkg/T"), one_field("md5sum", b"*")].concat(),
        )
    };
    let message = |id: u32, secs: u32| {
        one_record(
            &[one_field("op", &[2]), one_field("conn", &u32le(id)), one_field("time", &stamp_bytes(secs, 0))],
            b"m",
        )
    };
    let content = [connection(1, "/a"), message(1, 9), connection(2, "/b"), message(2, 3), message(1, 12)].concat();
    let mut conns = vec![conn(2, "/known")];
    let tally = tally_chunk(&content, &mut conns).unwrap();
    assert_eq!(tally.counts, vec![(1, 2), (2, 1)]);
    assert_eq!(tally.span, Some((at(3, 0), at(12, 0))));
    assert_eq!(conns, vec![conn(2, "/known"), conn(1, "/a")]);
    let mut conns = Vec::new();
    assert!(tally_chunk(&content[..content.len() - 1], &mut conns).is_none());
    let tally = tally_chunk(&[], &mut conns).unwrap();
    assert_eq!((tally.counts, tally.span), (Vec::new(), None));
}

#[test]
fn names_once_and_in_order() {
    let names = strings(&["b", "a", "B", "a", "ab", "b", ""]);
    assert_eq!(unique(&names), strings(&["b", "a", "B", "ab", ""]));
    assert_eq!(sorted_unique(&names), strings(&["", "B", "a", "ab", "b"]));
    assert_eq!(sorted_unique(&strings(&["é", "z", "e"])), strings(&["e", "z", "é"]));
    assert!(holds_text(&names, &"ab".to_string()));
    assert!(!holds_text(&names, &"c".to_string()));
    assert_eq!(unique(&Vec::new()), Vec::<String>::new());
}

#[test]
fn index_entries_lead_to_messages() {
    let message = |id: u32, secs: u32, payload: &[u8]| {
        one_record(
            &[one_field("op", &[2]), one_field("conn", &u32le(id)), one_field("time", &stamp_bytes(secs, 5))],
            payload,
        )
    };
    let first = message(1, 9, b"one");
    let second = message(2, 10, b"two!");
    let content = [first.clone(), second.clone()].concat();
    let chunk = one_record(
        &[one_field("op", &[5]), one_field("compression", b"none"), one_field("size", &u32le(content.len() as u32))],
        &content,
    );
    let entry = |secs: u32, offset: u32| [stamp_bytes(secs, 5), u32le(offset)].concat();
    let index = |id: u32, entries: Vec<u8>, count: u32| {
        one_record(
            &[one_field("op", &[4]), one_field("ver", &u32le(1)), one_field("conn", &u32le(id)), one_field("count", &u32le(count))],
            &entries,
        )
    };
    let bytes = [
        chunk.clone(),
        index(1, entry(9, 0), 1),
        index(2, entry(10, first.len() as u32), 1),
        chunk.clone(),
    ]
    .concat();
    let found = read_chunk_at(&bytes, 0).unwrap();
    let entries = read_chunk_index(&bytes, &found).unwrap();
    assert_eq!(
        entries,
        vec![
            IndexEntry { conn: 1, time: Time { secs: 9, nsecs: 5 }, offset: 0 },
            IndexEntry { conn: 2, time: Time { secs: 10, nsecs: 5 }, offset: first.len() as u32 },
        ]
    );
    let last = read_chunk_at(&bytes, bytes.len() - chunk.len()).unwrap();
    assert_eq!(read_chunk_index(&bytes, &last), Some(Vec::new()));
    assert_eq!(read_chunk_index(&bytes[..bytes.len() - chunk.len() - 1], &found), None);

    let conns = vec![conn(1, "/a"), conn(2, "/b")];
    let m = read_message_at(&content, entries[1].offset as usize, &conns).unwrap();
    assert_eq!((m.conn, m.topic, m.time, m.data), (2, "/b", entries[1].time, &b"two!"[..]));
    let m = read_message_at(&content, 0, &conns).unwrap();
    assert_eq!((m.conn, m.topic, m.data, m.size()), (1, "/a", &b"one"[..], 3));
    assert!(read_message_at(&content, 1, &conns).is_none());
    assert!(read_message_at(&content, content.len(), &conns).is_none());
    assert!(read_message_at(&content, 0, &conns[1..].to_vec()).is_none());
}
