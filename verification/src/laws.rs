//! What holds of ropes, builders and readers across several calls.

use crate::builder::{
    appends_rope, commits, pushes_bytes, pushes_static, RopeBuilder, Uncommitted, UncommittedView,
};
use crate::elem::{
    compared, elems_chunks, elems_wf, lemma_compared, lemma_elems_chunks_concat,
    lemma_elems_chunks_nonempty, lemma_elems_chunks_push, lemma_flatten_nonempty, InnerRope,
    RopeElem,
};
use crate::foreign::{byte_string_text, byte_text, bytes_view};
use crate::hash::{chunk_writes, fed, lemma_fed_chunks, HashWriteView};
use crate::reader::{ReaderView, RopeReader};
use crate::rope::{as_chunks, Rope};
use crate::text::{is_text_of, ToStrError};
use bytes::Bytes;
use std::borrow::Cow;
use vstd::prelude::*;
use vstd::std_specs::cmp::PartialEqSpec;
use vstd::utf8::{encode_utf8, encode_utf8_decode_utf8, encode_utf8_valid_utf8};

verus! {

/// Equality of ropes is an equivalence.
pub proof fn law_equality_is_equivalence(a: Rope, b: Rope, c: Rope)
    ensures
        a.eq_spec(&a),
        a.eq_spec(&b) ==> b.eq_spec(&a),
        a.eq_spec(&b) && b.eq_spec(&c) ==> a.eq_spec(&c),
{
}

/// How the bytes of two ropes are split into chunks has no part in their equality.
pub proof fn law_equality_ignores_structure(a: Rope, b: Rope)
    ensures
        a.eq_spec(&b) == (a.chunks().flatten() == b.chunks().flatten()),
{
}

/// Equal ropes have the same length.
pub proof fn law_equal_ropes_are_equally_long(a: Rope, b: Rope)
    requires
        a.eq_spec(&b),
    ensures
        a@.len() == b@.len(),
{
}

/// No chunk of a rope is empty, so only a rope without bytes has no chunks.
pub proof fn law_no_empty_chunk(rope: Rope)
    requires
        rope.wf(),
    ensures
        forall|i: int| 0 <= i < rope.chunks().len() ==> (#[trigger] rope.chunks()[i]).len() > 0,
        (rope@.len() == 0) == (rope.chunks().len() == 0),
{
    rope.lemma_wf();
    lemma_elems_chunks_nonempty(rope.inner().elems());
    lemma_flatten_nonempty(rope.chunks());
}

/// What a builder was given is what reading the rope built from it gives back, in the
/// same order.
pub proof fn law_read_gives_back_what_was_pushed(b: RopeBuilder, rope: Rope, reader: RopeReader)
    requires
        rope.chunks() == b.flushed(),
        reader@.current is None,
        reader@.upcoming == rope.chunks(),
    ensures
        reader@.remaining() == b@,
{
    b.lemma_flushed();
    assert(reader@.remaining() == b.flushed().flatten());
}

/// Committing a second time changes nothing.
pub proof fn law_commit_again_changes_nothing(a: RopeBuilder, b: RopeBuilder, c: RopeBuilder)
    requires
        commits(a, b),
        commits(b, c),
    ensures
        c == b,
{
}

/// Whatever the pushes were, two builders build equal ropes exactly when they were given
/// the same bytes.
pub proof fn law_builds_compare_by_bytes(a: RopeBuilder, b: RopeBuilder, x: Rope, y: Rope)
    requires
        x.chunks() == a.flushed(),
        y.chunks() == b.flushed(),
    ensures
        x.eq_spec(&y) == (a@ == b@),
{
    a.lemma_flushed();
    b.lemma_flushed();
}

/// Bytes pushed in pieces are committed as if they had been pushed at once.
pub proof fn law_pushes_join(u: UncommittedView, a: Seq<u8>, b: Seq<u8>)
    ensures
        u.pushed(a).pushed(b) == u.pushed(a + b),
{
    assert(u.bytes() + a + b == u.bytes() + (a + b));
}

/// Reading `n` bytes and then `m` bytes leads where reading `n + m` bytes does.
pub proof fn law_reads_join(v: ReaderView, n: int, m: int)
    requires
        v.wf(),
        0 <= n,
        0 <= m,
    ensures
        v.advanced(n).advanced(m) == v.advanced(n + m),
    decreases n,
{
    v.lemma_opened();
    let at = v.opened();
    let have = at.front().len() as int;
    if n > 0 && have > 0 {
        if have < n {
            at.lemma_consumed(have);
            law_reads_join(at.consumed(have), n - have, m);
        } else {
            at.lemma_consumed(n);
            let w = at.consumed(n);
            assert(w == v.advanced(n));
            if n < have {
                assert(w.opened() == w);
                assert(w.front() == at.front().skip(n));
                if m > 0 {
                    if have - n < m {
                        assert(w.consumed(have - n) == at.consumed(have));
                    } else {
                        assert(w.consumed(m) == at.consumed(n + m));
                    }
                }
            }
        }
    }
}

/// A read takes the next bytes, and leaves the others.
pub proof fn law_read_takes_the_next_bytes(v: ReaderView, n: int)
    requires
        v.wf(),
        0 <= n <= v.remaining().len(),
    ensures
        v.remaining() == v.remaining().take(n) + v.advanced(n).remaining(),
        v.advanced(n).wf(),
{
    v.lemma_advanced(n);
    assert(v.remaining() == v.remaining().take(n) + v.remaining().skip(n));
}

/// A read of at least as many bytes as are left leaves none, and reading on stays there.
pub proof fn law_read_to_the_end(v: ReaderView, n: int, m: int)
    requires
        v.wf(),
        v.remaining().len() <= n,
        0 <= m,
    ensures
        v.advanced(n).remaining() == Seq::<u8>::empty(),
        v.advanced(n).advanced(m) == v.advanced(n),
{
    v.lemma_advanced(n);
    let w = v.advanced(n);
    w.lemma_opened();
    assert(w.opened().front().len() == 0);
}

/// Filling the buffer and consuming some of it is reading as many bytes.
pub proof fn law_fill_and_consume_is_read(v: ReaderView, n: int)
    requires
        v.wf(),
        0 < n <= v.opened().front().len(),
    ensures
        v.opened().consumed(n) == v.advanced(n),
        v.opened().front().take(n) == v.remaining().take(n),
{
    v.lemma_opened();
    if n == v.opened().front().len() {
        let w = v.opened().consumed(n);
        assert(w.advanced(0) == w);
    }
    assert(v.opened().remaining().take(n) == v.opened().front().take(n));
}

/// Filling the buffer and consuming all of it is taking the next chunk.
pub proof fn law_fill_and_consume_all_is_next(v: ReaderView)
    requires
        v.wf(),
        v.at_chunk_start(),
    ensures
        v.opened().consumed(v.opened().front().len() as int) == v.opened().dropped(),
        v.opened().current matches Some((chunk, _)) ==> v.opened().front() == chunk,
{
    v.lemma_opened();
}

/// The buffer is empty exactly when all bytes are read.
pub proof fn law_buffer_is_empty_at_the_end_only(v: ReaderView)
    requires
        v.wf(),
    ensures
        (v.opened().front().len() == 0) == (v.remaining().len() == 0),
{
    v.lemma_opened();
}

/// Looking for the next section of bytes finds one exactly when bytes are left. What is
/// left of it comes next, nothing is read by looking, and looking again finds the same.
pub proof fn law_next_section(v: ReaderView)
    requires
        v.wf(),
    ensures
        v.opened().current is None == (v.remaining().len() == 0),
        v.opened().current matches Some((section, offset)) ==> {
            &&& 0 <= offset < section.len()
            &&& section.skip(offset).is_prefix_of(v.remaining())
        },
        v.opened().remaining() == v.remaining(),
        v.opened().opened() == v.opened(),
{
    v.lemma_opened();
}

/// Comparing two elements on their own gives the same both ways round, and where it
/// gives an answer, that is whether they hold the same bytes.
pub proof fn law_elements_compare_by_bytes(a: RopeElem, b: RopeElem, one_list: bool)
    requires
        one_list ==> a == b,
    ensures
        compared(a, b, one_list) == compared(b, a, one_list),
        compared(a, b, one_list) matches Some(same) ==> same == (a.chunks().flatten()
            == b.chunks().flatten()),
        a is Shared || b is Shared ==> compared(a, b, one_list) != Some(false),
{
    lemma_compared(a, b, one_list);
}

/// Where a reader stands after `k` chunks more.
pub open spec fn after_chunks(v: ReaderView, k: nat) -> ReaderView
    decreases k,
{
    if k == 0 {
        v
    } else {
        after_chunks(v.opened().dropped(), (k - 1) as nat)
    }
}

/// Going through a rope by chunks gives its chunks, each once and in order, and then
/// nothing any more.
pub proof fn law_chunks_come_in_order(v: ReaderView, k: nat)
    requires
        v.current is None,
    ensures
        k < v.upcoming.len() ==> after_chunks(v, k).opened().current == Some(
            (v.upcoming[k as int], 0int),
        ),
        k >= v.upcoming.len() ==> after_chunks(v, k).opened().current is None,
        after_chunks(v, k).at_chunk_start(),
    decreases k,
{
    if k > 0 {
        let w = v.opened().dropped();
        law_chunks_come_in_order(w, (k - 1) as nat);
        if v.upcoming.len() > 0 {
            assert(w.upcoming == v.upcoming.drop_first());
        }
    }
}

/// Ropes of the same bytes hash alike, however their bytes are split up, with every
/// hasher that takes runs of bytes one byte after the other.
pub proof fn law_equal_ropes_hash_alike<S>(
    a: Rope,
    b: Rope,
    state: S,
    word: spec_fn(S, usize) -> S,
    byte: spec_fn(S, u8) -> S,
)
    requires
        a.eq_spec(&b),
    ensures
        fed(a.hash_writes(), state, word, byte) == fed(b.hash_writes(), state, word, byte),
{
    let next = word(state, a@.len() as usize);
    assert(a.hash_writes().drop_first() == chunk_writes(a.chunks()));
    assert(b.hash_writes().drop_first() == chunk_writes(b.chunks()));
    lemma_fed_chunks(a.chunks(), next, word, byte);
    lemma_fed_chunks(b.chunks(), next, word, byte);
}

/// What a rope tells a hasher is its length, and then runs that put together are its
/// bytes, so ropes that tell a hasher the same are equal.
pub proof fn law_hash_writes_determine_the_bytes(a: Rope, b: Rope)
    requires
        a.wf(),
        b.wf(),
    ensures
        a.hash_writes().first() matches HashWriteView::Word(n) && n == a@.len(),
        forall|i: int|
            1 <= i < a.hash_writes().len() ==> #[trigger] a.hash_writes()[i] is Run,
        a.hash_writes().skip(1).map_values(
            |w: HashWriteView|
                match w {
                    HashWriteView::Run(s) => s,
                    HashWriteView::Word(_) => Seq::<u8>::empty(),
                },
        ).flatten() == a@,
        a.hash_writes() == b.hash_writes() ==> a@ == b@,
{
    a.lemma_wf();
    lemma_told(a);
    lemma_told(b);
}

/// The runs that a rope tells a hasher are its chunks.
proof fn lemma_told(a: Rope)
    ensures
        a.hash_writes().skip(1).map_values(
            |w: HashWriteView|
                match w {
                    HashWriteView::Run(s) => s,
                    HashWriteView::Word(_) => Seq::<u8>::empty(),
                },
        ).flatten() == a@,
{
    assert(a.hash_writes().skip(1).map_values(
        |w: HashWriteView|
            match w {
                HashWriteView::Run(s) => s,
                HashWriteView::Word(_) => Seq::<u8>::empty(),
            },
    ) == a.chunks());
}

/// A hasher that takes runs of bytes one byte after the other is fed the length of the
/// rope and then every byte of it.
pub proof fn law_hasher_is_fed_every_byte<S>(
    a: Rope,
    state: S,
    word: spec_fn(S, usize) -> S,
    byte: spec_fn(S, u8) -> S,
)
    ensures
        fed(a.hash_writes(), state, word, byte) == a@.fold_left(
            word(state, a@.len() as usize),
            byte,
        ),
{
    assert(a.hash_writes().drop_first() == chunk_writes(a.chunks()));
    lemma_fed_chunks(a.chunks(), word(state, a@.len() as usize), word, byte);
}

/// Ropes of the same bytes have the same text, or none of them has one.
pub proof fn law_equal_ropes_read_alike(
    a: Rope,
    b: Rope,
    s: Result<Cow<'_, str>, ToStrError>,
    t: Result<Cow<'_, str>, ToStrError>,
)
    requires
        a.eq_spec(&b),
        is_text_of(s, a.chunks()),
        is_text_of(t, b.chunks()),
    ensures
        s is Ok == t is Ok,
        s is Ok ==> s->Ok_0@ == t->Ok_0@,
{
    if s is Ok && t is Ok {
        encode_utf8_decode_utf8(s->Ok_0@);
        encode_utf8_decode_utf8(t->Ok_0@);
    }
}

/// A rope that is made of the text of another is equal to it, and contiguous.
pub proof fn law_text_round_trip(rope: Rope, text: Cow<'_, str>, back: Rope)
    requires
        is_text_of(Ok(text), rope.chunks()),
        back.chunks() == as_chunks(encode_utf8(text@)),
    ensures
        rope.eq_spec(&back),
        back.chunks().len() <= 1,
{
    if encode_utf8(text@).len() > 0 {
        seq![encode_utf8(text@)].lemma_flatten_one_element();
    } else {
        assert(back@ == rope@);
    }
}

/// A rope of a string has that string for its text.
pub proof fn law_string_round_trip(
    text: Seq<char>,
    rope: Rope,
    r: Result<Cow<'_, str>, ToStrError>,
)
    requires
        rope@ == encode_utf8(text),
        is_text_of(r, rope.chunks()),
    ensures
        r matches Ok(s) && s@ == text,
{
    encode_utf8_valid_utf8(text);
    encode_utf8_decode_utf8(text);
    if r is Ok {
        encode_utf8_decode_utf8(r->Ok_0@);
    }
}

/// A rope of a vector holds the bytes of the vector, all of them, in one chunk.
pub proof fn law_rope_of_vector(v: Vec<u8>, r: Rope)
    requires
        call_ensures(<Rope as From<Vec<u8>>>::from, (v,), r),
    ensures
        r@ == v@,
        v@.len() > 0 ==> r.chunks() == seq![v@],
{
}

/// A rope of a string holds the string's encoding, all of it, in one chunk.
pub proof fn law_rope_of_string(s: String, r: Rope)
    requires
        call_ensures(<Rope as From<String>>::from, (s,), r),
    ensures
        r@ == encode_utf8(s@),
        encode_utf8(s@).len() > 0 ==> r.chunks() == seq![encode_utf8(s@)],
{
}

/// A rope of a static string holds the string's encoding, all of it, in one chunk.
pub proof fn law_rope_of_static_string(s: &'static str, r: Rope)
    requires
        call_ensures(<Rope as From<&'static str>>::from, (s,), r),
    ensures
        r@ == encode_utf8(s@),
        encode_utf8(s@).len() > 0 ==> r.chunks() == seq![encode_utf8(s@)],
{
}

/// A rope of static bytes holds these bytes, all of them, in one chunk.
pub proof fn law_rope_of_static_bytes(s: &'static [u8], r: Rope)
    requires
        call_ensures(<Rope as From<&'static [u8]>>::from, (s,), r),
    ensures
        r@ == s@,
        s@.len() > 0 ==> r.chunks() == seq![s@],
{
}

/// A rope of a `Bytes` holds its bytes, all of them, in one chunk.
pub proof fn law_rope_of_bytes(b: Bytes, r: Rope)
    requires
        call_ensures(<Rope as From<Bytes>>::from, (b,), r),
    ensures
        r@ == bytes_view(b),
        bytes_view(b).len() > 0 ==> r.chunks() == seq![bytes_view(b)],
{
}

/// Equality of ropes is equality of their bytes.
pub proof fn law_equality_is_of_bytes(a: Rope, b: Rope)
    ensures
        a.eq_spec(&b) == (a@ == b@),
        a@ == a.chunks().flatten(),
{
}

/// The chunks of a list of elements are those of its elements, from left to right: a
/// section of bytes is one chunk, and a shared tree has the chunks of its own elements.
pub proof fn law_chunks_of_elements(
    a: Seq<RopeElem>,
    b: Seq<RopeElem>,
    e: RopeElem,
    bytes: Bytes,
    inner: InnerRope,
)
    ensures
        elems_chunks(Seq::empty()) == Seq::<Seq<u8>>::empty(),
        elems_chunks(a.push(e)) == elems_chunks(a) + e.chunks(),
        elems_chunks(a + b) == elems_chunks(a) + elems_chunks(b),
        RopeElem::Local(bytes).chunks() == seq![bytes_view(bytes)],
        RopeElem::Shared(inner).chunks() == inner.chunks(),
        inner.chunks() == elems_chunks(inner.elems()),
        inner@ == inner.chunks().flatten(),
{
    lemma_elems_chunks_push(a, e);
    lemma_elems_chunks_concat(a, b);
}

/// Elements fit into a rope exactly when none of them is empty: no section of bytes, no
/// shared tree, and nothing inside one.
pub proof fn law_no_empty_element(s: Seq<RopeElem>, bytes: Bytes, inner: InnerRope)
    ensures
        elems_wf(s) == (forall|i: int| 0 <= i < s.len() ==> (#[trigger] s[i]).wf()),
        RopeElem::Local(bytes).wf() == (bytes_view(bytes).len() > 0),
        RopeElem::Shared(inner).wf() == (inner.elems().len() > 0 && elems_wf(inner.elems())),
        inner.wf() == elems_wf(inner.elems()),
{
}

/// Two sections of bytes can be told apart on their own exactly when they are equally
/// long, and two shared trees when they are known to be one. Nothing else can.
pub proof fn law_when_elements_compare(
    a: Bytes,
    b: Bytes,
    x: InnerRope,
    y: InnerRope,
    one_list: bool,
)
    ensures
        compared(RopeElem::Local(a), RopeElem::Local(b), one_list) is Some == (bytes_view(a).len()
            == bytes_view(b).len()),
        compared(RopeElem::Local(a), RopeElem::Local(b), one_list) == Some(true) <==> bytes_view(a)
            == bytes_view(b),
        compared(RopeElem::Shared(x), RopeElem::Shared(y), one_list) == (if one_list {
            Some(true)
        } else {
            None
        }),
        compared(RopeElem::Local(a), RopeElem::Shared(y), one_list) is None,
        compared(RopeElem::Shared(x), RopeElem::Local(b), one_list) is None,
{
}

/// Bytes that are pushed to be copied come after those that are not committed, and are
/// committed together with them, as one chunk.
pub proof fn law_pushed_bytes_are_kept_back(before: RopeBuilder, bytes: Seq<u8>, after: RopeBuilder)
    requires
        pushes_bytes(before, bytes, after),
    ensures
        bytes.len() == 0 ==> after == before,
        bytes.len() > 0 ==> {
            &&& after.elements() == before.elements()
            &&& after.uncommitted() is Owned
            &&& after.uncommitted().bytes() == before.uncommitted().bytes() + bytes
            &&& after.flushed() == before.committed().push(before.uncommitted().bytes() + bytes)
        },
        after@ == before@ + bytes,
{
    assert(after@ == before@ + bytes);
}

/// Static bytes that take less room than a handle on them are kept back as well, and
/// stay static where nothing was. Others become a chunk of their own at once.
pub proof fn law_long_static_bytes_are_a_chunk(
    before: RopeBuilder,
    bytes: Seq<u8>,
    after: RopeBuilder,
)
    requires
        pushes_static(before, bytes, after),
    ensures
        bytes.len() == 0 ==> after == before,
        0 < bytes.len() < vstd::layout::size_of::<Bytes>() ==> {
            &&& after.elements() == before.elements()
            &&& after.uncommitted() is Static == before.uncommitted() is Empty
            &&& after.uncommitted() is Owned == !(before.uncommitted() is Empty)
            &&& after.uncommitted().bytes() == before.uncommitted().bytes() + bytes
        },
        bytes.len() > 0 && bytes.len() >= vstd::layout::size_of::<Bytes>() ==> {
            &&& after.uncommitted() is Empty
            &&& after.committed() == before.flushed() + seq![bytes]
            &&& after.elements().last() is Local
            &&& after.elements().len() == before.elements().len() + (if before.uncommitted()
                is Empty {
                1int
            } else {
                2int
            })
            &&& before.elements().is_prefix_of(after.elements())
        },
        after@ == before@ + bytes,
{
    if bytes.len() > 0 {
        if bytes.len() >= vstd::layout::size_of::<Bytes>() {
            before.lemma_flushed();
            before.flushed().lemma_flatten_push(bytes);
            assert(before.flushed().push(bytes) == before.flushed() + seq![bytes]);
            lemma_prefix_committed(before, after);
        }
        assert(after@ == before@ + bytes);
    } else {
        assert(after@ == before@ + bytes);
    }
}

/// Where one element follows those of a builder once everything is committed, what was
/// committed before stays in front.
proof fn lemma_prefix_committed(before: RopeBuilder, after: RopeBuilder)
    requires
        after.elements().len() > 0,
        before.commits_to(after.elements().drop_last()),
    ensures
        before.elements().is_prefix_of(after.elements()),
{
    let n = before.elements().len() as int;
    let mid = after.elements().drop_last();
    if before.uncommitted() is Empty {
        assert(after.elements().subrange(0, n) == mid);
    } else {
        assert(after.elements().subrange(0, n) == mid.drop_last());
    }
}

/// A rope that is appended brings its chunks, after all bytes that were pushed before,
/// and its tree is shared.
pub proof fn law_appended_rope_is_shared(before: RopeBuilder, rope: Rope, after: RopeBuilder)
    requires
        appends_rope(before, rope, after),
    ensures
        rope@.len() == 0 ==> after == before,
        rope@.len() > 0 ==> {
            &&& after.uncommitted() is Empty
            &&& after.committed() == before.flushed() + rope.chunks()
            &&& after.elements().last() == RopeElem::Shared(rope.inner())
            &&& after.elements().len() == before.elements().len() + (if before.uncommitted()
                is Empty {
                1int
            } else {
                2int
            })
            &&& before.elements().is_prefix_of(after.elements())
        },
        after@ == before@ + rope@,
{
    if rope@.len() > 0 {
        before.lemma_flushed();
        vstd::seq_lib::lemma_flatten_concat(before.flushed(), rope.chunks());
        lemma_prefix_committed(before, after);
    }
    assert(after@ == before@ + rope@);
}

/// Committing keeps the bytes and their order, leaves none uncommitted, and adds one
/// element where there were any.
pub proof fn law_commit_keeps_the_bytes(before: RopeBuilder, after: RopeBuilder)
    requires
        commits(before, after),
    ensures
        before.uncommitted() is Empty ==> after == before,
        !(before.uncommitted() is Empty) ==> {
            &&& after.elements().drop_last() == before.elements()
            &&& after.elements().last() matches RopeElem::Local(b) && bytes_view(b)
                == before.uncommitted().bytes()
        },
        after.elements().len() == before.elements().len() + (if before.uncommitted() is Empty {
            0int
        } else {
            1int
        }),
        after.uncommitted() is Empty,
        after.committed() == before.flushed(),
        after.flushed() == before.flushed(),
        after@ == before@,
{
    before.lemma_flushed();
    assert(after@ == before@);
}

/// The chunks of a builder, once everything is committed, are those that already are,
/// and one of all other bytes where there are any. Put together they are all its bytes.
pub proof fn law_flushed(b: RopeBuilder)
    ensures
        b.committed() == elems_chunks(b.elements()),
        b.flushed() == b.committed() + (if b.uncommitted() is Empty {
            Seq::empty()
        } else {
            seq![b.uncommitted().bytes()]
        }),
        b.flushed().flatten() == b@,
        b@ == b.committed().flatten() + b.uncommitted().bytes(),
{
    b.lemma_flushed();
    assert(b.committed() + Seq::<Seq<u8>>::empty() == b.committed());
    assert(b.committed().push(b.uncommitted().bytes()) == b.committed()
        + seq![b.uncommitted().bytes()]);
}

/// Bytes that are not committed are those that were given, whether copied or not.
pub proof fn law_uncommitted_bytes(s: &'static [u8], v: Vec<u8>)
    ensures
        Uncommitted::Empty@.bytes() == Seq::<u8>::empty(),
        Uncommitted::Static(s)@.bytes() == s@,
        Uncommitted::Owned(v)@.bytes() == v@,
        Uncommitted::Empty@ is Empty,
        Uncommitted::Static(s)@ is Static,
        Uncommitted::Owned(v)@ is Owned,
{
}

/// A place is at the start of a chunk exactly when no chunk was begun, or the begun one
/// is still whole.
pub proof fn law_chunk_start(v: ReaderView)
    requires
        v.wf(),
    ensures
        v.at_chunk_start() == (v.current matches Some((chunk, _)) ==> v.front() == chunk),
        v.current is None ==> v.front() == Seq::<u8>::empty(),
        v.current matches Some((chunk, offset)) ==> v.front() == chunk.skip(offset),
        v.remaining() == v.front() + v.upcoming.flatten(),
{
    if let Some((chunk, offset)) = v.current {
        assert(chunk.skip(0) == chunk);
    }
}

/// Reading nothing, or at the end, changes nothing. A read that ends inside a chunk
/// leaves the rest of that chunk to be had at once.
pub proof fn law_read_stops_where_it_ends(v: ReaderView, n: int)
    requires
        v.wf(),
        0 <= n,
    ensures
        v.advanced(0) == v,
        v.remaining().len() == 0 ==> v.advanced(n) == v,
        n > 0 && v.current is None && v.upcoming.len() > 0 && n < v.upcoming[0].len()
            ==> v.advanced(n).current == Some((v.upcoming[0], n)) && v.advanced(n).upcoming
            == v.upcoming.drop_first(),
        n > 0 && v.current is None && v.upcoming.len() > 0 && n == v.upcoming[0].len()
            ==> v.advanced(n).current is None && v.advanced(n).upcoming == v.upcoming.drop_first(),
        v.current matches Some((chunk, offset)) ==> (n < chunk.len() - offset ==> v.advanced(n)
            == (ReaderView { current: Some((chunk, offset + n)), upcoming: v.upcoming })),
        v.current matches Some((chunk, offset)) ==> (n == chunk.len() - offset ==> v.advanced(n)
            == (ReaderView { current: None, upcoming: v.upcoming })),
{
    v.lemma_opened();
    if v.current is None && v.upcoming.len() > 0 {
        assert(v.opened().front() == v.upcoming[0]);
    }
}

/// The bytes of a literal come one after the other, and printable bytes other than the
/// quote and the backslash stand for themselves.
pub proof fn law_byte_string_text(a: Seq<u8>, b: u8)
    ensures
        byte_string_text(Seq::empty()) == seq!['b', '"', '"'],
        byte_string_text(a.push(b)) == byte_string_text(a).drop_last() + byte_text(b) + seq!['"'],
        byte_text(b).len() == 1 <==> 0x20 <= b < 0x7f && b != 0x22 && b != 0x5c,
        byte_text(b).len() == 1 ==> byte_text(b)[0] == b as char,
        byte_text(b).len() != 1 ==> byte_text(b)[0] == '\\',
{
    let f = |c: u8| byte_text(c);
    assert(Seq::<u8>::empty().map_values(f) == Seq::<Seq<char>>::empty());
    assert(byte_string_text(Seq::empty()) == seq!['b', '"', '"']);
    assert(a.push(b).map_values(f) == a.map_values(f).push(byte_text(b)));
    a.map_values(f).lemma_flatten_push(byte_text(b));
    assert(byte_string_text(a.push(b)) == byte_string_text(a).drop_last() + byte_text(b)
        + seq!['"']);
}

} // verus!
