use bytes::Bytes;
use rope::{InnerRope, Rope, RopeBuilder, RopeElem};
use std::cmp::min;
use std::io::{BufRead, Read};

/// An element that holds a list of elements of its own.
fn shared(value: Vec<RopeElem>) -> RopeElem {
    RopeElem::Shared(InnerRope::from(value))
}

#[test]
fn empty_build_without_pushes() {
    let empty = RopeBuilder::default().build();
    let mut reader = empty.read();
    assert!(reader.next().is_none());
}

#[test]
fn empty_build_with_empty_static_push() {
    let mut builder = RopeBuilder::default();
    builder += "";

    let empty = builder.build();
    let mut reader = empty.read();
    assert!(reader.next().is_none());
}

#[test]
fn empty_build_with_empty_bytes_push() {
    let mut builder = RopeBuilder::default();
    builder.push_bytes(&[]);

    let empty = builder.build();
    let mut reader = empty.read();
    assert!(reader.next().is_none());
}

#[test]
fn empty_build_with_empty_concat() {
    let mut builder = RopeBuilder::default();
    builder += &RopeBuilder::default().build();

    let empty = builder.build();
    let mut reader = empty.read();
    assert!(reader.next().is_none());
}

#[test]
fn empty_from_empty_static_str() {
    let empty = Rope::from("");
    let mut reader = empty.read();
    assert!(reader.next().is_none());
}

#[test]
fn empty_from_empty_string() {
    let empty = Rope::from("".to_string());
    let mut reader = empty.read();
    assert!(reader.next().is_none());
}

#[test]
fn empty_equality() {
    let a = Rope::from("");
    let b = Rope::from("");

    assert_eq!(a, b);
}

#[test]
fn cloned_equality() {
    let a = Rope::from("abc");
    let b = a.clone();

    assert_eq!(a, b);
}

#[test]
fn value_equality() {
    let a = Rope::from("abc".to_string());
    let b = Rope::from("abc".to_string());

    assert_eq!(a, b);
}

#[test]
fn value_inequality() {
    let a = Rope::from("abc".to_string());
    let b = Rope::from("def".to_string());

    assert_ne!(a, b);
}

#[test]
fn value_equality_shared_1() {
    let shared = Rope::from("def");
    let a = Rope::new(vec!["abc".into(), shared.clone().into(), "ghi".into()]);
    let b = Rope::new(vec!["abc".into(), shared.into(), "ghi".into()]);

    assert_eq!(a, b);
}

#[test]
fn value_equality_shared_2() {
    let a = Rope::new(vec!["abc".into(), shared(vec!["def".into()]), "ghi".into()]);
    let b = Rope::new(vec!["abc".into(), shared(vec!["def".into()]), "ghi".into()]);

    assert_eq!(a, b);
}

#[test]
fn value_equality_splits_1() {
    let a = Rope::new(vec!["a".into(), "aa".into()]);
    let b = Rope::new(vec!["aa".into(), "a".into()]);

    assert_eq!(a, b);
}

#[test]
fn value_equality_splits_2() {
    let a = Rope::new(vec![shared(vec!["a".into()]), "aa".into()]);
    let b = Rope::new(vec![shared(vec!["aa".into()]), "a".into()]);

    assert_eq!(a, b);
}

#[test]
fn value_inequality_shared_1() {
    let shared = Rope::from("def");
    let a = Rope::new(vec!["aaa".into(), shared.clone().into(), "ghi".into()]);
    let b = Rope::new(vec!["bbb".into(), shared.into(), "ghi".into()]);

    assert_ne!(a, b);
}

#[test]
fn value_inequality_shared_2() {
    let a = Rope::new(vec!["abc".into(), shared(vec!["ddd".into()]), "ghi".into()]);
    let b = Rope::new(vec!["abc".into(), shared(vec!["eee".into()]), "ghi".into()]);

    assert_ne!(a, b);
}

#[test]
fn value_inequality_shared_3() {
    let shared = Rope::from("def");
    let a = Rope::new(vec!["abc".into(), shared.clone().into(), "ggg".into()]);
    let b = Rope::new(vec!["abc".into(), shared.into(), "hhh".into()]);

    assert_ne!(a, b);
}

#[test]
fn iteration() {
    let shared = Rope::from("def");
    let rope = Rope::new(vec!["abc".into(), shared.into(), "ghi".into()]);

    let mut reader = rope.read();
    let mut chunks: Vec<Bytes> = vec![];
    while let Some(chunk) = reader.next() {
        chunks.push(chunk);
    }

    assert_eq!(chunks, vec!["abc", "def", "ghi"]);
}

#[test]
fn read() {
    let shared = Rope::from("def");
    let rope = Rope::new(vec!["abc".into(), shared.into(), "ghi".into()]);

    let mut chunks = vec![];
    let mut buf = [0_u8; 2];
    let mut reader = rope.read();
    loop {
        let amt = reader.read(&mut buf).unwrap();
        if amt == 0 {
            break;
        }
        chunks.push(Vec::from(&buf[0..amt]));
    }

    assert_eq!(
        chunks,
        vec![
            Vec::from(*b"ab"),
            Vec::from(*b"cd"),
            Vec::from(*b"ef"),
            Vec::from(*b"gh"),
            Vec::from(*b"i")
        ]
    );
}

#[test]
fn fill_buf() {
    let shared = Rope::from("def");
    let rope = Rope::new(vec!["abc".into(), shared.into(), "ghi".into()]);

    let mut chunks = vec![];
    let mut reader = rope.read();
    loop {
        let buf = reader.fill_buf().unwrap();
        if buf.is_empty() {
            break;
        }
        let c = min(2, buf.len());
        chunks.push(Vec::from(buf));
        reader.consume(c);
    }

    assert_eq!(
        chunks,
        // A full buffer comes first; only two bytes of it are consumed, so the third
        // comes again.
        vec![
            Vec::from(*b"abc"),
            Vec::from(*b"c"),
            Vec::from(*b"def"),
            Vec::from(*b"f"),
            Vec::from(*b"ghi"),
            Vec::from(*b"i")
        ]
    );
}
