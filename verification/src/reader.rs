//! Reading a rope from front to back.

use crate::elem::{
    elems_chunks, elems_weight, lemma_elems_chunks_nonempty, lemma_elems_chunks_step, InnerRope,
    RopeElem,
};
use crate::foreign::{bytes_view, read_buf_capacity, read_buf_filled};
use crate::rope::Rope;
use bytes::Bytes;
use std::io::{BufRead, Read};
use tokio::io::ReadBuf;
use vstd::prelude::*;

verus! {

/// Where a reader stands.
#[verifier::ext_equal]
pub struct ReaderView {
    /// The chunk that was begun, if one was, and how many of its bytes are consumed.
    pub current: Option<(Seq<u8>, int)>,
    /// The chunks after it.
    pub upcoming: Seq<Seq<u8>>,
}

impl ReaderView {
    /// A chunk that was begun has bytes left, and no chunk to come is empty.
    pub open spec fn wf(self) -> bool {
        &&& self.current matches Some((chunk, offset)) ==> 0 <= offset < chunk.len()
        &&& forall|i: int|
            0 <= i < self.upcoming.len() ==> (#[trigger] self.upcoming[i]).len() > 0
    }

    /// What is left of the chunk that was begun.
    pub open spec fn front(self) -> Seq<u8> {
        match self.current {
            Some((chunk, offset)) => chunk.skip(offset),
            None => Seq::empty(),
        }
    }

    /// All bytes that are still to be read.
    pub open spec fn remaining(self) -> Seq<u8> {
        self.front() + self.upcoming.flatten()
    }

    /// No chunk was begun and left unfinished.
    pub open spec fn at_chunk_start(self) -> bool {
        self.current matches Some((_, offset)) ==> offset == 0
    }

    /// The next chunk is begun, unless one already was or none is left.
    pub open spec fn opened(self) -> ReaderView {
        if self.current is None && self.upcoming.len() > 0 {
            ReaderView {
                current: Some((self.upcoming.first(), 0)),
                upcoming: self.upcoming.drop_first(),
            }
        } else {
            self
        }
    }

    /// `n` bytes more of the begun chunk are consumed. A reader that has begun no
    /// chunk stays where it is.
    pub open spec fn consumed(self, n: int) -> ReaderView {
        match self.current {
            Some((chunk, offset)) => ReaderView {
                current: if offset + n < chunk.len() {
                    Some((chunk, offset + n))
                } else {
                    None
                },
                upcoming: self.upcoming,
            },
            None => self,
        }
    }

    /// The begun chunk is dropped.
    pub open spec fn dropped(self) -> ReaderView {
        ReaderView { current: None, upcoming: self.upcoming }
    }

    /// The next `n` bytes, or as many as there are, are read.
    pub open spec fn advanced(self, n: int) -> ReaderView
        decreases n,
    {
        let at = self.opened();
        let have = at.front().len() as int;
        if n <= 0 || have == 0 {
            self
        } else if have < n {
            at.consumed(have).advanced(n - have)
        } else {
            at.consumed(n)
        }
    }

    /// Beginning the next chunk reads nothing, and only at the end is there no chunk
    /// to begin.
    pub proof fn lemma_opened(self)
        requires
            self.wf(),
        ensures
            self.opened().wf(),
            self.opened().remaining() == self.remaining(),
            self.opened().opened() == self.opened(),
            self.opened().current is None ==> self.remaining().len() == 0,
            self.opened().current is None ==> self.opened() == self,
            self.opened().current is Some ==> self.opened().front().len() > 0,
    {
        if self.current is None && self.upcoming.len() > 0 {
            let rest = self.upcoming.drop_first();
            assert(forall|i: int| 0 <= i < rest.len() ==> #[trigger] rest[i] == self.upcoming[i
                + 1]);
            assert(self.upcoming[0].len() > 0);
            assert(self.upcoming.first().skip(0) == self.upcoming.first());
            assert(self.opened().remaining() == self.remaining());
        }
    }

    /// Consuming bytes of the begun chunk takes them off the front.
    pub proof fn lemma_consumed(self, n: int)
        requires
            self.wf(),
            0 <= n <= self.front().len(),
        ensures
            self.consumed(n).wf(),
            self.consumed(n).remaining() == self.remaining().skip(n),
    {
        assert(self.consumed(n).remaining() == self.remaining().skip(n));
    }

    /// Reading `n` bytes takes `n` bytes off the front, or all that are left.
    pub proof fn lemma_advanced(self, n: int)
        requires
            self.wf(),
            0 <= n,
        ensures
            self.advanced(n).wf(),
            n <= self.remaining().len() ==> self.advanced(n).remaining() == self.remaining().skip(
                n,
            ),
            n >= self.remaining().len() ==> self.advanced(n).remaining() == Seq::<u8>::empty(),
        decreases n,
    {
        self.lemma_opened();
        let at = self.opened();
        let have = at.front().len() as int;
        if n == 0 || have == 0 {
            assert(self.remaining().skip(0) == self.remaining());
            if have == 0 {
                assert(self.remaining() == Seq::<u8>::empty());
                assert(self.remaining().skip(0) == self.remaining());
            }
        } else if have < n {
            at.lemma_consumed(have);
            at.consumed(have).lemma_advanced(n - have);
            if n <= self.remaining().len() {
                assert(self.remaining().skip(have).skip(n - have) == self.remaining().skip(n));
            }
        } else {
            at.lemma_consumed(n);
            if n == self.remaining().len() {
                assert(self.remaining().skip(n) == Seq::<u8>::empty());
            }
        }
    }
}

/// One level of the tree that a reader is in.
#[derive(Debug)]
enum StackElem {
    /// A section of bytes, and how many of them are consumed.
    Local(Bytes, usize),
    /// A list of elements, and the index of the next of them.
    Shared(InnerRope, usize),
}

impl StackElem {
    /// The chunks of this level that were not begun.
    spec fn upcoming(self) -> Seq<Seq<u8>> {
        match self {
            StackElem::Local(_, _) => Seq::empty(),
            StackElem::Shared(inner, index) => elems_chunks(inner.elems().skip(index as int)),
        }
    }

    /// The number of nodes of this level that were not visited.
    spec fn weight(self) -> nat {
        match self {
            StackElem::Local(_, _) => 0,
            StackElem::Shared(inner, index) => 1 + elems_weight(inner.elems().skip(index as int)),
        }
    }

    /// Starts at the beginning of an element.
    fn from(el: &RopeElem) -> (r: Self)
        ensures
            match (*el, r) {
                (RopeElem::Local(b), StackElem::Local(c, offset)) => bytes_view(c) == bytes_view(b)
                    && offset == 0,
                (RopeElem::Shared(inner), StackElem::Shared(list, index)) => list == inner && index
                    == 0,
                _ => false,
            },
    {
        match el {
            RopeElem::Local(bytes) => StackElem::Local(bytes.clone(), 0),
            RopeElem::Shared(inner) => StackElem::Shared(inner.clone(), 0),
        }
    }
}

/// The chunks of all levels that were not begun, the innermost level first.
spec fn stack_upcoming(stack: Seq<StackElem>) -> Seq<Seq<u8>>
    decreases stack.len(),
{
    if stack.len() == 0 {
        Seq::empty()
    } else {
        stack.last().upcoming() + stack_upcoming(stack.drop_last())
    }
}

/// The number of nodes of all levels that were not visited.
spec fn stack_weight(stack: Seq<StackElem>) -> nat
    decreases stack.len(),
{
    if stack.len() == 0 {
        0
    } else {
        stack.last().weight() + stack_weight(stack.drop_last())
    }
}

/// Every level has something left, and only the innermost can be a section of bytes.
spec fn stack_wf(stack: Seq<StackElem>) -> bool {
    forall|i: int|
        0 <= i < stack.len() ==> match #[trigger] stack[i] {
            StackElem::Local(b, offset) => i == stack.len() - 1 && offset < bytes_view(b).len(),
            StackElem::Shared(inner, index) => index < inner.elems().len() && inner.wf(),
        }
}

/// Reads a rope from front to back: byte by byte through [`std::io::Read`] and
/// [`std::io::BufRead`], or chunk by chunk through [`RopeReader::next`].
#[derive(Debug)]
pub struct RopeReader {
    /// The levels of the tree that the reader is in, the innermost last. Each level
    /// shares what it refers to, so a reader may outlive the rope that it reads.
    stack: Vec<StackElem>,
    /// The tree that the reader was made for, where it was made for a whole rope.
    held_root: Option<InnerRope>,
}

/// A reader stands for the place that it has reached.
impl View for RopeReader {
    type V = ReaderView;

    closed spec fn view(&self) -> ReaderView {
        stack_view(self.stack@)
    }
}

/// The view of a stack.
spec fn stack_view(stack: Seq<StackElem>) -> ReaderView {
    ReaderView {
        current: if stack.len() > 0 {
            match stack.last() {
                StackElem::Local(b, offset) => Some((bytes_view(b), offset as int)),
                StackElem::Shared(_, _) => None,
            }
        } else {
            None
        },
        upcoming: stack_upcoming(stack),
    }
}

/// Leaving the innermost level leaves a well-formed stack that has begun no chunk.
proof fn lemma_pop(stack: Seq<StackElem>)
    requires
        stack_wf(stack),
        stack.len() > 0,
    ensures
        stack_wf(stack.drop_last()),
        stack_view(stack.drop_last()).current is None,
        stack.last() is Local ==> stack_view(stack.drop_last()) == stack_view(stack).dropped(),
{
    let rest = stack.drop_last();
    assert forall|i: int| 0 <= i < rest.len() implies #[trigger] rest[i] == stack[i] && rest[i]
        is Shared by {
        assert(stack[i] is Shared);
    }
    if stack.last() is Local {
        assert(stack_upcoming(stack) == stack_upcoming(rest));
    }
}

/// The place of a well-formed stack is well-formed.
proof fn lemma_stack_view_wf(stack: Seq<StackElem>)
    requires
        stack_wf(stack),
    ensures
        stack_view(stack).wf(),
    decreases stack.len(),
{
    if stack.len() > 0 {
        let rest = stack.drop_last();
        lemma_pop(stack);
        lemma_stack_view_wf(rest);
        assert(stack.last() == stack[stack.len() - 1]);
        match stack.last() {
            StackElem::Local(_, _) => {},
            StackElem::Shared(inner, index) => {
                let els = inner.elems().skip(index as int);
                assert forall|i: int| 0 <= i < els.len() implies (#[trigger] els[i]).wf() by {
                    assert(els[i] == inner.elems()[i + index]);
                }
                lemma_elems_chunks_nonempty(els);
            },
        }
        let up = stack_upcoming(stack);
        let top = stack.last().upcoming();
        assert forall|i: int| 0 <= i < up.len() implies (#[trigger] up[i]).len() > 0 by {
            if i < top.len() {
                assert(up[i] == top[i]);
            } else {
                assert(up[i] == stack_upcoming(rest)[i - top.len()]);
                assert(stack_view(rest).upcoming[i - top.len()].len() > 0);
            }
        }
    }
}

/// Descending into an element of the innermost list keeps the place and visits a node.
proof fn lemma_descend(
    before: Seq<StackElem>,
    rest: Seq<StackElem>,
    inner: InnerRope,
    index: usize,
    elem: RopeElem,
    mid: Seq<StackElem>,
    el: StackElem,
    after: Seq<StackElem>,
)
    requires
        stack_wf(before),
        before == rest.push(StackElem::Shared(inner, index)),
        elem == inner.elems()[index as int],
        index < usize::MAX,
        mid == (if index + 1 < inner.elems().len() {
            rest.push(StackElem::Shared(inner, (index + 1) as usize))
        } else {
            rest
        }),
        after == mid.push(el),
        match (elem, el) {
            (RopeElem::Local(b), StackElem::Local(c, offset)) => bytes_view(c) == bytes_view(b)
                && offset == 0,
            (RopeElem::Shared(r), StackElem::Shared(list, i)) => list == r && i == 0,
            _ => false,
        },
    ensures
        stack_wf(after),
        stack_view(after).opened() == stack_view(before).opened(),
        stack_weight(after) < stack_weight(before),
{
    assert(before.drop_last() == rest);
    assert(before.last() == StackElem::Shared(inner, index));
    assert(before[before.len() - 1] == before.last());
    assert(inner.wf() && index < inner.elems().len());
    assert(after.drop_last() == mid);
    lemma_elems_chunks_step(inner.elems(), index as int);
    let tail = elems_chunks(inner.elems().skip(index + 1));
    assert forall|i: int| 0 <= i < rest.len() implies rest[i] is Shared && rest[i] == before[i]
        && rest[i] == after[i] by {
        assert(before[i] == rest[i]);
    }
    assert(elem.wf());
    if index + 1 < inner.elems().len() {
        assert(mid.drop_last() == rest);
        assert(mid.last() == StackElem::Shared(inner, (index + 1) as usize));
        assert(after[rest.len() as int] == mid.last());
    } else {
        assert(inner.elems().skip(index + 1) == Seq::<RopeElem>::empty());
        assert(tail == Seq::<Seq<u8>>::empty());
        assert(tail + stack_upcoming(rest) == stack_upcoming(rest));
    }
    assert(stack_upcoming(mid) == tail + stack_upcoming(rest));
    assert(stack_weight(mid) <= 1 + elems_weight(inner.elems().skip(index + 1)) + stack_weight(
        rest,
    ));
    assert(after.last() == el);
    match elem {
        RopeElem::Local(b) => {
            let up = stack_upcoming(before);
            assert(up == seq![bytes_view(b)] + stack_upcoming(mid));
            assert(up.first() == bytes_view(b));
            assert(up.drop_first() == stack_upcoming(mid));
            assert(stack_upcoming(after) == stack_upcoming(mid));
        },
        RopeElem::Shared(r) => {
            assert(r.elems().skip(0) == r.elems());
            assert(stack_upcoming(after) == stack_upcoming(before));
        },
    }
}

impl RopeReader {
    /// The reader's levels fit together.
    pub closed spec fn wf(&self) -> bool {
        stack_wf(self.stack@)
    }

    /// The tree of the rope that the reader was made for. A reader that was made for a
    /// part of a tree has none.
    pub closed spec fn held_root(&self) -> Option<InnerRope> {
        self.held_root
    }

    /// A well-formed reader is at a well-formed place.
    pub proof fn lemma_wf(&self)
        requires
            self.wf(),
        ensures
            self@.wf(),
    {
        lemma_stack_view_wf(self.stack@);
    }

    /// A reader over a whole rope, which it holds on to.
    pub(crate) fn new(rope: &Rope) -> (r: RopeReader)
        ensures
            r.wf(),
            r.held_root() == Some(rope.inner()),
            r@.current is None,
            r@.upcoming == rope.chunks(),
    {
        let root = rope.data();
        let mut r = RopeReader::new_at(root, 0);
        r.held_root = Some(root.clone());
        proof {
            assert(root.elems().skip(0) == root.elems());
            if root.elems().len() == 0 {
                assert(rope.chunks() == Seq::<Seq<u8>>::empty());
            }
        }
        r
    }

    /// A reader that starts at the element of the given index.
    pub(crate) fn new_at(inner: &InnerRope, index: usize) -> (r: RopeReader)
        ensures
            r.wf(),
            r.held_root() is None,
            r@.current is None,
            index < inner.elems().len() ==> r@.upcoming == elems_chunks(
                inner.elems().skip(index as int),
            ),
            index >= inner.elems().len() ==> r@.upcoming == Seq::<Seq<u8>>::empty(),
    {
        let mut stack: Vec<StackElem> = Vec::new();
        if index < inner.deref().len() {
            stack.push(StackElem::Shared(inner.clone(), index));
            proof {
                assert(stack@.drop_last() == Seq::<StackElem>::empty());
                assert(stack_upcoming(stack@.drop_last()) == Seq::<Seq<u8>>::empty());
                assert(stack@.last() == stack@[0]);
                assert(stack_upcoming(stack@) == elems_chunks(inner.elems().skip(index as int)));
            }
        }
        RopeReader { stack, held_root: None }
    }

    /// Descends to the next section of bytes, and returns it with the number of its
    /// bytes that are consumed.
    pub(crate) fn next_internal(&mut self) -> (r: Option<(Bytes, usize)>)
        requires
            old(self).wf(),
        ensures
            final(self).wf(),
            final(self).held_root() == old(self).held_root(),
            final(self)@ == old(self)@.opened(),
            final(self)@.remaining() == old(self)@.remaining(),
            match r {
                Some((b, offset)) => {
                    &&& final(self)@.current == Some((bytes_view(b), offset as int))
                    &&& offset < bytes_view(b).len()
                    &&& bytes_view(b).skip(offset as int).is_prefix_of(old(self)@.remaining())
                },
                None => final(self)@.current is None && old(self)@.remaining().len() == 0,
            },
    {
        proof {
            self.lemma_wf();
            self@.lemma_opened();
        }
        loop
            invariant
                self.wf(),
                self.held_root() == old(self).held_root(),
                self@.opened() == old(self)@.opened(),
            decreases stack_weight(self.stack@),
        {
            let ghost before = self.stack@;
            match self.stack.pop() {
                None => {
                    assert(self.stack@ == before);
                    return None;
                },
                Some(StackElem::Local(b, offset)) => {
                    let bytes = b.clone();
                    self.stack.push(StackElem::Local(b, offset));
                    assert(self.stack@ == before);
                    return Some((bytes, offset));
                },
                Some(StackElem::Shared(inner, index)) => {
                    let ghost rest = self.stack@;
                    assert(before == rest.push(StackElem::Shared(inner, index)));
                    assert(before.last() == before[before.len() - 1]);
                    let els = inner.deref();
                    let count = els.len();
                    let el = StackElem::from(&els[index]);
                    let ghost elem = els@[index as int];
                    let more = index + 1 < count;
                    if more {
                        self.stack.push(StackElem::Shared(inner, index + 1));
                    }
                    let ghost mid = self.stack@;
                    self.stack.push(el);
                    proof {
                        lemma_descend(before, rest, inner, index, elem, mid, el, self.stack@);
                    }
                },
            }
        }
    }
}

impl RopeReader {
    /// Whether no chunk was begun and left unfinished, as [`RopeReader::next`] asks.
    pub fn is_at_chunk_start(&self) -> (r: bool)
        requires
            self.wf(),
        ensures
            r == self@.at_chunk_start(),
    {
        match self.stack.last() {
            Some(StackElem::Local(_, offset)) => *offset == 0,
            _ => true,
        }
    }

    /// The next chunk, whole and without copying it. Not to be mixed with reading by
    /// bytes: a chunk that was read in part cannot be had whole any more.
    pub fn next(&mut self) -> (r: Option<Bytes>)
        requires
            old(self).wf(),
            old(self)@.at_chunk_start(),
        ensures
            final(self).wf(),
            final(self).held_root() == old(self).held_root(),
            final(self)@ == old(self)@.opened().dropped(),
            match r {
                Some(b) => old(self)@.opened().current == Some((bytes_view(b), 0int)),
                None => old(self)@.opened().current is None,
            },
            final(self)@.current is None,
            match r {
                Some(b) => {
                    &&& bytes_view(b).len() > 0
                    &&& old(self)@.remaining() == bytes_view(b) + final(self)@.remaining()
                },
                None => old(self)@.remaining().len() == 0 && final(self)@.remaining().len() == 0,
            },
            match old(self)@.current {
                Some((chunk, _)) => {
                    &&& r is Some
                    &&& bytes_view(r->0) == chunk
                    &&& final(self)@.upcoming == old(self)@.upcoming
                },
                None => if old(self)@.upcoming.len() > 0 {
                    &&& r is Some
                    &&& bytes_view(r->0) == old(self)@.upcoming[0]
                    &&& final(self)@.upcoming == old(self)@.upcoming.drop_first()
                } else {
                    r is None && final(self)@.upcoming.len() == 0
                },
            },
    {
        proof {
            self.lemma_wf();
        }
        match self.next_internal() {
            Some((bytes, _)) => {
                proof {
                    self.lemma_wf();
                    assert(bytes_view(bytes).skip(0) == bytes_view(bytes));
                }
                self.pop_front();
                Some(bytes)
            },
            None => None,
        }
    }

    /// Drops the begun chunk.
    fn pop_front(&mut self)
        requires
            old(self).wf(),
            old(self)@.current is Some,
        ensures
            final(self).wf(),
            final(self).held_root() == old(self).held_root(),
            final(self)@ == old(self)@.dropped(),
    {
        let ghost before = self.stack@;
        let _ = self.stack.pop();
        proof {
            assert(self.stack@ == before.drop_last());
            lemma_pop(before);
        }
    }

    /// Consumes up to `limit` bytes of one chunk. Returns the chunk, and where in it the
    /// consumed bytes begin and end.
    fn take_part(&mut self, limit: usize) -> (r: Option<(Bytes, usize, usize)>)
        requires
            old(self).wf(),
            limit > 0,
        ensures
            final(self).wf(),
            final(self).held_root() == old(self).held_root(),
            match r {
                Some((b, from, to)) => {
                    &&& from < to <= bytes_view(b).len()
                    &&& to - from <= limit
                    &&& to - from <= old(self)@.remaining().len()
                    &&& bytes_view(b).subrange(from as int, to as int)
                        == old(self)@.remaining().take(to - from)
                    &&& final(self)@.remaining() == old(self)@.remaining().skip(to - from)
                    &&& final(self)@.advanced(limit - (to - from)) == old(self)@.advanced(
                        limit as int,
                    )
                },
                None => {
                    &&& old(self)@.remaining().len() == 0
                    &&& final(self)@ == old(self)@
                    &&& old(self)@.advanced(limit as int) == old(self)@
                },
            },
    {
        let ghost start = self@;
        proof {
            self.lemma_wf();
            start.lemma_opened();
        }
        match self.next_internal() {
            None => None,
            Some((b, from)) => {
                proof {
                    self.lemma_wf();
                }
                let have = b.len() - from;
                let amt = if have < limit {
                    have
                } else {
                    limit
                };
                proof {
                    start.opened().lemma_consumed(amt as int);
                    assert(start.remaining().take(amt as int) == bytes_view(b).subrange(
                        from as int,
                        from + amt,
                    ));
                }
                self.consume(amt);
                Some((b, from, from + amt))
            },
        }
    }

    /// Copies up to `want` bytes into `buf`, and returns how many it copied: fewer than
    /// `want` only at the end of the rope.
    fn read_internal(&mut self, want: usize, buf: &mut ReadBuf<'_>) -> (n: usize)
        requires
            old(self).wf(),
            read_buf_filled(*old(buf)).len() + want <= read_buf_capacity(*old(buf)),
        ensures
            final(self).wf(),
            final(self).held_root() == old(self).held_root(),
            final(self)@ == old(self)@.advanced(want as int),
            n == vstd::math::min(want as int, old(self)@.remaining().len() as int),
            read_buf_filled(*final(buf)) == read_buf_filled(*old(buf))
                + old(self)@.remaining().take(n as int),
            final(self)@.remaining() == old(self)@.remaining().skip(n as int),
            read_buf_capacity(*final(buf)) == read_buf_capacity(*old(buf)),
    {
        let ghost start = self@;
        let ghost all = start.remaining();
        let ghost filled = read_buf_filled(*buf);
        let mut remaining = want;
        proof {
            assert(all.skip(0) == all);
            assert(filled + all.take(0) == filled);
        }
        while remaining > 0
            invariant_except_break
                self@.advanced(remaining as int) == start.advanced(want as int),
            invariant
                self.wf(),
                self.held_root() == old(self).held_root(),
                start == old(self)@,
                all == start.remaining(),
                filled == read_buf_filled(*old(buf)),
                remaining <= want,
                want - remaining <= all.len(),
                self@.remaining() == all.skip(want - remaining),
                read_buf_filled(*buf) == filled + all.take(want - remaining),
                read_buf_capacity(*buf) == read_buf_capacity(*old(buf)),
                filled.len() + want <= read_buf_capacity(*old(buf)),
            ensures
                self@ == start.advanced(want as int),
                remaining == 0 || self@.remaining().len() == 0,
            decreases remaining,
        {
            match self.take_part(remaining) {
                None => {
                    break;
                },
                Some((bytes, from, to)) => {
                    let ghost done = want - remaining;
                    buf.put_slice(&bytes[from..to]);
                    remaining = remaining - (to - from);
                    proof {
                        lemma_take_more(all, done, to - from);
                        assert(filled + all.take(done) + all.skip(done).take(to - from) == filled
                            + (all.take(done) + all.skip(done).take(to - from)));
                    }
                },
            }
        }
        want - remaining
    }

    /// Fills the rest of `buf`, as far as there are bytes.
    pub fn read_buf(&mut self, buf: &mut ReadBuf<'_>)
        requires
            old(self).wf(),
        ensures
            final(self).wf(),
            final(self).held_root() == old(self).held_root(),
            ({
                let room = read_buf_capacity(*old(buf)) - read_buf_filled(*old(buf)).len();
                let n = vstd::math::min(room, old(self)@.remaining().len() as int);
                &&& final(self)@ == old(self)@.advanced(room)
                &&& read_buf_filled(*final(buf)) == read_buf_filled(*old(buf))
                    + old(self)@.remaining().take(n)
                &&& final(self)@.remaining() == old(self)@.remaining().skip(n)
            }),
            read_buf_capacity(*final(buf)) == read_buf_capacity(*old(buf)),
    {
        let room = buf.remaining();
        let _ = self.read_internal(room, buf);
    }
}

impl RopeReader {
    /// Reads all bytes that are left.
    pub(crate) fn read_all(&mut self) -> (r: Vec<u8>)
        requires
            old(self).wf(),
        ensures
            final(self).wf(),
            final(self).held_root() == old(self).held_root(),
            final(self)@.remaining() == Seq::<u8>::empty(),
            r@ == old(self)@.remaining(),
    {
        let mut out: Vec<u8> = Vec::new();
        let ghost all = self@.remaining();
        loop
            invariant
                self.wf(),
                self.held_root() == old(self).held_root(),
                all == old(self)@.remaining(),
                out@ + self@.remaining() == all,
            decreases self@.remaining().len(),
        {
            let ghost at = self@;
            proof {
                self.lemma_wf();
                at.lemma_opened();
            }
            let amt;
            match self.fill_buf() {
                Ok(front) => {
                    if front.is_empty() {
                        assert(self@.remaining() == Seq::<u8>::empty());
                        return out;
                    }
                    out.extend_from_slice(front);
                    amt = front.len();
                },
                Err(_) => {
                    return out;
                },
            }
            proof {
                at.opened().lemma_consumed(amt as int);
            }
            self.consume(amt);
        }
    }
}

/// Taking `at` bytes and then `n` of the others is taking `at + n` bytes.
proof fn lemma_take_more(all: Seq<u8>, at: int, n: int)
    requires
        0 <= at,
        0 <= n,
        at + n <= all.len(),
    ensures
        all.take(at) + all.skip(at).take(n) == all.take(at + n),
        all.skip(at).skip(n) == all.skip(at + n),
{
    assert(all.take(at) + all.skip(at).take(n) == all.take(at + n));
    assert(all.skip(at).skip(n) == all.skip(at + n));
}

/// Copies `src` into `buf`, beginning at index `at`.
fn copy_into(buf: &mut [u8], at: usize, src: &[u8])
    requires
        at + src@.len() <= old(buf)@.len(),
    ensures
        final(buf)@ == old(buf)@.take(at as int) + src@ + old(buf)@.skip(at + src@.len()),
{
    let ghost before = buf@;
    let room = buf.len();
    let mut i: usize = 0;
    while i < src.len()
        invariant
            i <= src@.len(),
            at + src@.len() <= room,
            room == before.len(),
            buf@ == before.take(at as int) + src@.take(i as int) + before.skip(at + i),
        decreases src@.len() - i,
    {
        buf[at + i] = src[i];
        i = i + 1;
        assert(buf@ == before.take(at as int) + src@.take(i as int) + before.skip(at + i));
    }
    assert(src@.take(i as int) == src@);
}

impl Read for RopeReader {
    /// Copies as many bytes into `buf` as fit and are left, and returns their number.
    fn read(&mut self, buf: &mut [u8]) -> (r: std::io::Result<usize>)
        requires
            old(self).wf(),
        ensures
            final(self).wf(),
            final(self).held_root() == old(self).held_root(),
            final(self)@ == old(self)@.advanced(old(buf)@.len() as int),
            r matches Ok(n) && n == vstd::math::min(
                old(buf)@.len() as int,
                old(self)@.remaining().len() as int,
            ) && final(buf)@ == old(self)@.remaining().take(n as int) + old(buf)@.skip(n as int)
                && final(self)@.remaining() == old(self)@.remaining().skip(n as int),
    {
        let ghost start = self@;
        let ghost all = start.remaining();
        let ghost before = buf@;
        let want = buf.len();
        let mut remaining = want;
        proof {
            assert(all.skip(0) == all);
            assert(all.take(0) + before.skip(0) == before);
        }
        while remaining > 0
            invariant_except_break
                self@.advanced(remaining as int) == start.advanced(want as int),
            invariant
                self.wf(),
                self.held_root() == old(self).held_root(),
                start == old(self)@,
                all == start.remaining(),
                want == before.len(),
                remaining <= want,
                want - remaining <= all.len(),
                self@.remaining() == all.skip(want - remaining),
                buf@ == all.take(want - remaining) + before.skip(want - remaining),
            ensures
                self@ == start.advanced(want as int),
                remaining == 0 || self@.remaining().len() == 0,
            decreases remaining,
        {
            match self.take_part(remaining) {
                None => {
                    break;
                },
                Some((bytes, from, to)) => {
                    let ghost done = want - remaining;
                    copy_into(buf, want - remaining, &bytes[from..to]);
                    remaining = remaining - (to - from);
                    proof {
                        lemma_take_more(all, done, to - from);
                        assert(buf@ == all.take(done + (to - from)) + before.skip(
                            done + (to - from),
                        ));
                    }
                },
            }
        }
        Ok(want - remaining)
    }
}

impl BufRead for RopeReader {
    /// The rest of the begun chunk, after beginning the next one if none was begun.
    /// It is empty at the end of the rope only.
    fn fill_buf(&mut self) -> (r: std::io::Result<&[u8]>)
        requires
            old(self).wf(),
        ensures
            final(self).wf(),
            final(self).held_root() == old(self).held_root(),
            final(self)@ == old(self)@.opened(),
            r matches Ok(s) && s@ == old(self)@.opened().front(),
            final(self)@.remaining() == old(self)@.remaining(),
            r matches Ok(s) && s@.is_prefix_of(old(self)@.remaining()) && (s@.len() == 0) == (old(
                self,
            )@.remaining().len() == 0),
            match old(self)@.current {
                Some((chunk, offset)) => r->Ok_0@ == chunk.skip(offset) && final(self)@ == old(
                    self,
                )@,
                None => old(self)@.upcoming.len() > 0 ==> {
                    &&& r->Ok_0@ == old(self)@.upcoming[0]
                    &&& final(self)@.current == Some((old(self)@.upcoming[0], 0int))
                    &&& final(self)@.upcoming == old(self)@.upcoming.drop_first()
                },
            },
    {
        proof {
            self.lemma_wf();
            self@.lemma_opened();
        }
        let _ = self.next_internal();
        match self.stack.last() {
            Some(StackElem::Local(bytes, offset)) => Ok(&bytes[*offset..bytes.len()]),
            _ => Ok(&[]),
        }
    }

    /// Consumes `amt` bytes of the begun chunk, of which there must be as many. A
    /// reader that has begun no chunk stays where it is.
    fn consume(&mut self, amt: usize)
        requires
            old(self).wf(),
            old(self)@.current is Some ==> amt <= old(self)@.front().len(),
        ensures
            final(self).wf(),
            final(self).held_root() == old(self).held_root(),
            final(self)@ == old(self)@.consumed(amt as int),
            match old(self)@.current {
                Some((chunk, offset)) => {
                    &&& final(self)@.current == (if offset + amt < chunk.len() {
                        Some((chunk, offset + amt))
                    } else {
                        None
                    })
                    &&& final(self)@.upcoming == old(self)@.upcoming
                    &&& final(self)@.remaining() == old(self)@.remaining().skip(amt as int)
                },
                None => final(self)@ == old(self)@,
            },
    {
        let ghost before = self.stack@;
        proof {
            self.lemma_wf();
            if self@.current is Some {
                self@.lemma_consumed(amt as int);
            }
            if before.len() > 0 {
                lemma_pop(before);
                assert(before.last() == before[before.len() - 1]);
            }
        }
        match self.stack.pop() {
            Some(StackElem::Local(bytes, offset)) => {
                if amt < bytes.len() - offset {
                    self.stack.push(StackElem::Local(bytes, offset + amt));
                    proof {
                        assert(self.stack@.drop_last() == before.drop_last());
                    }
                }
            },
            Some(level) => {
                self.stack.push(level);
                assert(self.stack@ == before);
            },
            None => {
                assert(self.stack@ == before);
            },
        }
    }
}

} // verus!
