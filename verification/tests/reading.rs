use bytes::Bytes;
use rope::{HashWrite, InnerRope, Rope, RopeElem, ToStrError};
use std::borrow::Cow;
use std::io::{BufRead, Read};
use tokio::io::ReadBuf;

/// "abcdefghi" in three chunks, the middle one in a list of its own.
fn sample() -> Rope {
    Rope::new(vec![
        "abc".into(),
        Rope::from("def").into(),
        "ghi".into(),
    ])
}

#[test]
fn reads_join() {
    let rope = sample();
    let mut pieces = rope.read();
    let mut buf = [0_u8; 4];
    assert_eq!(pieces.read(&mut buf).unwrap(), 4);
    assert_eq!(&buf, b"abcd");
    assert_eq!(pieces.read(&mut buf[..1]).unwrap(), 1);
    assert_eq!(&buf, b"ebcd");
    let mut whole = rope.read();
    let mut first = [0_u8; 5];
    assert_eq!(whole.read(&mut first).unwrap(), 5);
    assert_eq!(pieces.fill_buf().unwrap(), b"f");
    assert_eq!(whole.fill_buf().unwrap(), b"f");
}

#[test]
fn reading_ends_with_the_rope() {
    let mut reader = sample().read();
    let mut buf = [b'-'; 12];
    assert_eq!(reader.read(&mut buf).unwrap(), 9);
    assert_eq!(&buf, b"abcdefghi---");
    assert_eq!(reader.read(&mut buf).unwrap(), 0);
    assert_eq!(reader.fill_buf().unwrap(), b"");
    assert!(reader.next().is_none());
}

#[test]
fn empty_read_begins_nothing() {
    let mut reader = sample().read();
    assert_eq!(reader.read(&mut []).unwrap(), 0);
    assert!(reader.is_at_chunk_start());
    assert_eq!(reader.next().unwrap(), "abc");
}

#[test]
fn consume_needs_a_begun_chunk() {
    let mut reader = sample().read();
    reader.consume(2);
    assert_eq!(reader.fill_buf().unwrap(), b"abc");
    reader.consume(2);
    assert!(!reader.is_at_chunk_start());
    assert_eq!(reader.fill_buf().unwrap(), b"c");
    reader.consume(1);
    assert!(reader.is_at_chunk_start());
    reader.consume(1);
    assert_eq!(reader.fill_buf().unwrap(), b"def");
}

#[test]
fn filling_and_consuming_all_is_next() {
    let rope = sample();
    let mut by_buffer = rope.read();
    let mut by_chunk = rope.read();
    loop {
        let buf = by_buffer.fill_buf().unwrap().to_vec();
        match by_chunk.next() {
            Some(chunk) => assert_eq!(chunk, buf),
            None => {
                assert!(buf.is_empty());
                break;
            }
        }
        by_buffer.consume(buf.len());
    }
}

#[test]
fn next_after_fill_buf_gives_the_whole_chunk() {
    let mut reader = sample().read();
    assert_eq!(reader.fill_buf().unwrap(), b"abc");
    assert_eq!(reader.next().unwrap(), "abc");
    assert_eq!(reader.next().unwrap(), "def");
}

#[test]
fn read_buf_fills_what_is_left_of_a_buffer() {
    let mut reader = sample().read();
    let mut storage = [0_u8; 6];
    let mut buf = ReadBuf::new(&mut storage);
    buf.put_slice(b"<>");
    reader.read_buf(&mut buf);
    assert_eq!(buf.filled(), b"<>abcd");
    let mut storage = [0_u8; 10];
    let mut buf = ReadBuf::new(&mut storage);
    reader.read_buf(&mut buf);
    assert_eq!(buf.filled(), b"efghi");
}

#[test]
fn reader_outlives_the_rope() {
    let rope = sample();
    let mut reader = rope.read();
    drop(rope);
    let mut text = String::new();
    reader.read_to_string(&mut text).unwrap();
    assert_eq!(text, "abcdefghi");
}

#[test]
fn reader_debug_text() {
    let mut reader = Rope::from("abc").read();
    assert_eq!(
        format!("{reader:?}"),
        "RopeReader { stack: [Shared(InnerRope([Local(b\"abc\")]), 0)], \
         held_root: Some(InnerRope([Local(b\"abc\")])) }"
    );
    reader.fill_buf().unwrap();
    reader.consume(1);
    assert_eq!(
        format!("{reader:?}"),
        "RopeReader { stack: [Local(b\"abc\", 1)], \
         held_root: Some(InnerRope([Local(b\"abc\")])) }"
    );
}

#[test]
fn reading_descends_to_any_depth() {
    let mut elem: RopeElem = "x".into();
    for _ in 0..20 {
        elem = RopeElem::Shared(InnerRope::from(vec![elem.clone(), elem]));
        if Rope::new(vec![elem.clone()]).len() > 1000 {
            break;
        }
    }
    let rope = Rope::new(vec![elem]);
    let mut all = Vec::new();
    rope.read().read_to_end(&mut all).unwrap();
    assert_eq!(all, vec![b'x'; rope.len()]);
}

#[test]
fn equality_is_an_equivalence() {
    let a = sample();
    let b = Rope::from("abcdefghi");
    let c = Rope::new(vec!["abcd".into(), "efghi".into()]);
    assert_eq!(a, a);
    assert_eq!(a, b);
    assert_eq!(b, a);
    assert_eq!(b, c);
    assert_eq!(a, c);
}

#[test]
fn inequality_shows_wherever_it_is() {
    let a = sample();
    assert_ne!(a, Rope::from("abcdefghj"));
    assert_ne!(a, Rope::from("abcdefgh"));
    assert_ne!(a, Rope::new(vec!["abc".into(), "dxf".into(), "ghi".into()]));
    assert_ne!(a, Rope::new(vec!["abc".into(), Rope::from("dex").into(), "ghi".into()]));
    assert_ne!(a, Rope::default());
}

#[test]
fn elements_compare_where_they_can() {
    let ab: RopeElem = "ab".into();
    let cd: RopeElem = "cd".into();
    let abc: RopeElem = "abc".into();
    assert_eq!(ab.maybe_eq(&"ab".into()), Some(true));
    assert_eq!(ab.maybe_eq(&cd), Some(false));
    assert_eq!(ab.maybe_eq(&abc), None);
    let list = InnerRope::from(vec![ab.clone()]);
    let shared = RopeElem::Shared(list.clone());
    assert_eq!(shared.maybe_eq(&RopeElem::Shared(list)), Some(true));
    assert_eq!(shared.maybe_eq(&RopeElem::Shared(InnerRope::from(vec![ab.clone()]))), None);
    assert_eq!(shared.maybe_eq(&ab), None);
    assert_eq!(shared.maybe_eq_knowing(&shared, true), Some(true));
    assert_eq!(shared.maybe_eq_knowing(&shared, false), None);
    assert_eq!(ab.maybe_eq_knowing(&cd, true), Some(false));
}

/// What is told to a hasher, with the bytes put together.
fn told(rope: &Rope) -> (usize, Vec<u8>) {
    let mut writes = vec![];
    rope.deterministic_hash(&mut writes);
    let mut word = None;
    let mut all: Vec<u8> = vec![];
    for write in &writes {
        match write {
            HashWrite::Word(n) => {
                assert!(word.is_none() && all.is_empty());
                word = Some(*n);
            }
            HashWrite::Run(bytes) => all.extend(bytes),
        }
    }
    (word.unwrap(), all)
}

#[test]
fn equal_ropes_hash_alike() {
    assert_eq!(told(&sample()), (9, b"abcdefghi".to_vec()));
    assert_eq!(told(&sample()), told(&Rope::from("abcdefghi")));
    assert_eq!(told(&Rope::default()), (0, vec![]));
}

#[test]
fn hash_writes_follow_the_chunks() {
    let mut writes = vec![HashWrite::Word(7)];
    sample().deterministic_hash(&mut writes);
    assert_eq!(writes.len(), 5);
    assert!(matches!(writes[0], HashWrite::Word(7)));
    assert!(matches!(writes[1], HashWrite::Word(9)));
    assert!(matches!(&writes[3], HashWrite::Run(b) if b == "def"));
}

#[test]
fn text_of_one_chunk_is_borrowed() {
    assert!(matches!(Rope::default().to_str(), Ok(Cow::Borrowed(""))));
    let rope = Rope::from("abc");
    assert!(matches!(rope.to_str(), Ok(Cow::Borrowed("abc"))));
    let nested = Rope::new(vec![rope.into()]);
    assert!(matches!(nested.to_str(), Ok(Cow::Borrowed("abc"))));
}

#[test]
fn text_of_several_chunks_is_put_together() {
    let rope = sample();
    assert!(matches!(rope.to_str(), Ok(Cow::Owned(s)) if s == "abcdefghi"));
}

#[test]
fn text_may_be_split_anywhere() {
    let e = "\u{e9}".as_bytes();
    let halves = Rope::new(vec![
        RopeElem::Local(Bytes::from(e[..1].to_vec())),
        RopeElem::Local(Bytes::from(e[1..].to_vec())),
    ]);
    assert_eq!(halves.to_str().unwrap(), "\u{e9}");
    assert_eq!(halves, Rope::from("\u{e9}"));
}

#[test]
fn bytes_that_are_no_text() {
    let one = Rope::from(vec![b'a', 0xff]);
    match one.to_str() {
        Err(ToStrError::Utf8(e)) => assert_eq!(e.valid_up_to(), 1),
        other => panic!("{other:?}"),
    }
    let two = Rope::new(vec!["a".into(), one.into()]);
    match two.to_str() {
        Err(e) => {
            assert!(matches!(e, ToStrError::Stream));
            assert_eq!(e.message(), "failed to convert rope into string");
        }
        other => panic!("{other:?}"),
    }
}

#[test]
fn text_round_trip() {
    let rope = sample();
    let back = Rope::from(rope.to_str().unwrap().into_owned());
    assert_eq!(rope, back);
    let mut reader = back.read();
    assert_eq!(reader.next().unwrap(), "abcdefghi");
    assert!(reader.next().is_none());
}
