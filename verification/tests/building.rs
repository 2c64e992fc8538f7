use bytes::Bytes;
use rope::{InnerRope, Rope, RopeBuilder, RopeElem, Uncommitted};
use std::io::Write;

const LONG: &str = "a string that is longer than a handle on some bytes could ever be";

fn chunks(rope: &Rope) -> Vec<Bytes> {
    let mut reader = rope.read();
    let mut chunks = vec![];
    while let Some(chunk) = reader.next() {
        chunks.push(chunk);
    }
    chunks
}

#[test]
fn pushes_keep_their_order() {
    let mut builder = RopeBuilder::default();
    builder.push_bytes(b"one ");
    builder += "two ";
    builder += &Rope::from("three ");
    builder.push_static_bytes(LONG.as_bytes());
    builder.push_bytes(b" four");
    let text = format!("one two three {LONG} four");
    assert_eq!(builder.len(), text.len());
    let rope = builder.build();
    assert_eq!(rope.len(), text.len());
    assert_eq!(rope.to_str().unwrap(), text);
    assert_eq!(chunks(&rope), vec!["one two ", "three ", LONG, " four"]);
}

#[test]
fn small_pushes_share_a_chunk() {
    let mut builder = RopeBuilder::default();
    builder += "ab";
    builder += "cd";
    builder.push_bytes(b"ef");
    assert_eq!(chunks(&builder.build()), vec!["abcdef"]);
}

#[test]
fn pushes_in_pieces_join() {
    let mut pieces = RopeBuilder::default();
    pieces.push_bytes(b"ab");
    pieces.push_bytes(b"c");
    let mut whole = RopeBuilder::default();
    whole.push_bytes(b"abc");
    let (pieces, whole) = (pieces.build(), whole.build());
    assert_eq!(chunks(&pieces), chunks(&whole));
    assert_eq!(pieces, whole);
}

#[test]
fn static_bytes_are_weighed_against_a_handle() {
    let size = std::mem::size_of::<Bytes>();
    let long: &'static [u8] = LONG.as_bytes();
    let mut builder = RopeBuilder::default();
    builder.push_bytes(b"x");
    builder.push_static_bytes(&long[..size - 1]);
    assert_eq!(builder.parts().1.len(), 0);
    builder.push_static_bytes(&long[..size]);
    assert_eq!(builder.parts().1.len(), 2);
    assert_eq!(builder.parts().0, 2 * size);
    assert!(matches!(builder.parts().2, Uncommitted::Empty));
}

#[test]
fn finishing_twice_is_finishing_once() {
    let mut builder = RopeBuilder::default();
    builder.push_bytes(b"ab");
    builder.finish();
    builder.finish();
    assert_eq!(builder.len(), 2);
    assert_eq!(builder.parts().1.len(), 1);
    builder.push_bytes(b"c");
    assert_eq!(chunks(&builder.build()), vec!["ab", "c"]);
}

#[test]
fn an_appended_rope_is_shared() {
    let part = Rope::from("part");
    let mut builder = RopeBuilder::default();
    builder.concat(&part);
    builder.concat(&part);
    let (length, elements, _) = builder.parts();
    assert_eq!(length, 8);
    assert_eq!(elements.len(), 2);
    assert_eq!(elements[0].maybe_eq(&elements[1]), Some(true));
    assert_eq!(builder.build(), Rope::from("partpart"));
}

#[test]
fn builder_counts_what_is_not_committed() {
    let mut builder = RopeBuilder::default();
    assert!(builder.is_empty());
    builder.push_bytes(b"");
    assert!(builder.is_empty());
    builder.push_bytes(b"a");
    assert!(!builder.is_empty());
    assert_eq!(builder.len(), 1);
}

#[test]
fn builder_from_string() {
    assert_eq!(RopeBuilder::from("").len(), 0);
    let short = RopeBuilder::from("ab");
    assert!(matches!(short.parts().2, Uncommitted::Static(b"ab")));
    let long = RopeBuilder::from(LONG);
    assert_eq!(long.parts().1.len(), 1);
    assert_eq!(long.build(), Rope::from(LONG));
}

#[test]
fn builder_from_vector() {
    let builder = RopeBuilder::from(vec![1, 2, 3]);
    assert_eq!(builder.len(), 3);
    assert_eq!(builder.build(), Rope::from(vec![1, 2, 3]));
    assert!(RopeBuilder::from(Vec::new()).is_empty());
}

#[test]
fn builder_is_a_writer() {
    let mut builder = RopeBuilder::default();
    assert_eq!(builder.write(b"abc").unwrap(), 3);
    builder.flush().unwrap();
    builder.write_all(b"de").unwrap();
    assert_eq!(chunks(&builder.build()), vec!["abc", "de"]);
}

#[test]
fn uncommitted_length() {
    assert_eq!(Uncommitted::Empty.len(), 0);
    assert_eq!(Uncommitted::Static(b"ab").len(), 2);
    assert_eq!(Uncommitted::Owned(vec![1, 2, 3]).len(), 3);
    assert!(matches!(Uncommitted::from(Vec::new()), Uncommitted::Empty));
}

#[test]
fn uncommitted_pushes_and_finish() {
    let mut u = Uncommitted::default();
    assert!(u.finish().is_none());
    u.push_static_bytes(b"ab");
    assert!(matches!(u, Uncommitted::Static(b"ab")));
    u.push_static_bytes(b"cd");
    u.push_bytes(b"ef");
    assert!(matches!(&u, Uncommitted::Owned(v) if v == b"abcdef"));
    assert_eq!(u.finish().unwrap(), "abcdef");
    assert!(matches!(u, Uncommitted::Empty));
    u.push_bytes(b"g");
    assert!(matches!(&u, Uncommitted::Owned(v) if v == b"g"));
    u = Uncommitted::Static(b"h");
    assert_eq!(u.finish().unwrap(), "h");
}

#[test]
fn uncommitted_debug_text() {
    assert_eq!(Uncommitted::Empty.fmt(), "None");
    assert_eq!(Uncommitted::Static(b"a\n").fmt(), "Static(b\"a\\n\")");
    assert_eq!(Uncommitted::Owned(vec![0, 255]).fmt(), "Owned(b\"\\0\\xff\")");
    assert_eq!(
        Uncommitted::Static(b"\r\t\\\" ~\x7f\x1a").fmt(),
        "Static(b\"\\r\\t\\\\\\\" ~\\x7f\\x1a\")"
    );
    assert_eq!(rope::builder::debug_tuple("Some", "1"), "Some(1)");
}

#[test]
fn lengths_go_through_the_tree() {
    let inner = InnerRope::from(vec![
        "ab".into(),
        RopeElem::Shared(InnerRope::from(vec!["c".into(), "def".into()])),
    ]);
    assert_eq!(inner.len(), 6);
    assert_eq!(inner.deref()[1].len(), 4);
    assert_eq!(InnerRope::default().len(), 0);
    assert_eq!(Rope::new(vec![RopeElem::Shared(inner)]).len(), 6);
}

#[test]
fn rope_conversions() {
    assert_eq!(Rope::from(Bytes::from_static(b"ab")), Rope::from("ab"));
    let bytes: &'static [u8] = b"ab";
    assert_eq!(Rope::from(bytes), Rope::from("ab".to_string()));
    assert!(Rope::from(Vec::new()).is_empty());
    assert!(Rope::default().is_empty());
    assert!(!Rope::from("a").is_empty());
    assert_eq!(Rope::from("\u{e9}").len(), 2);
}
