//! Putting a rope together.

use crate::elem::{elems_chunks, elems_wf, lemma_elems_chunks_push, InnerRope, RopeElem};
use crate::foreign::{byte_string_text, bytes_debug, bytes_view};
use crate::rope::{as_chunks, Rope};
use bytes::Bytes;
use std::io::Write;
use std::ops::AddAssign;
use vstd::prelude::*;
use vstd::seq_lib::lemma_flatten_concat;
use vstd::string::StringExecFns;
use vstd::utf8::encode_utf8;

verus! {

/// Bytes that were pushed and are not part of the rope yet. Keeping them back lets
/// many small pushes share one buffer.
pub enum Uncommitted {
    /// No bytes.
    Empty,
    /// Static bytes of a single push. Committed as they are, they need no buffer.
    Static(&'static [u8]),
    /// The bytes of any other pushes.
    Owned(Vec<u8>),
}

/// What an [`Uncommitted`] stands for.
#[verifier::ext_equal]
pub enum UncommittedView {
    /// No bytes.
    Empty,
    /// Static bytes.
    Static(Seq<u8>),
    /// Copied bytes.
    Owned(Seq<u8>),
}

impl UncommittedView {
    /// The bytes, wherever they are kept.
    pub open spec fn bytes(self) -> Seq<u8> {
        match self {
            UncommittedView::Empty => Seq::empty(),
            UncommittedView::Static(s) => s,
            UncommittedView::Owned(s) => s,
        }
    }

    /// Only `Empty` holds no bytes.
    pub open spec fn wf(self) -> bool {
        !(self is Empty) ==> self.bytes().len() > 0
    }

    /// After a push of bytes that have to be copied.
    pub open spec fn pushed(self, bytes: Seq<u8>) -> UncommittedView {
        UncommittedView::Owned(self.bytes() + bytes)
    }

    /// After a push of static bytes. Only the first push need not copy them.
    pub open spec fn pushed_static(self, bytes: Seq<u8>) -> UncommittedView {
        if self is Empty {
            UncommittedView::Static(bytes)
        } else {
            self.pushed(bytes)
        }
    }
}

impl View for Uncommitted {
    type V = UncommittedView;

    open spec fn view(&self) -> UncommittedView {
        match *self {
            Uncommitted::Empty => UncommittedView::Empty,
            Uncommitted::Static(s) => UncommittedView::Static(s@),
            Uncommitted::Owned(v) => UncommittedView::Owned(v@),
        }
    }
}

impl Default for Uncommitted {
    fn default() -> (r: Self)
        ensures
            r@ == UncommittedView::Empty,
    {
        Uncommitted::Empty
    }
}

impl Uncommitted {
    /// The number of bytes.
    pub fn len(&self) -> (n: usize)
        ensures
            n == self@.bytes().len(),
    {
        match self {
            Uncommitted::Empty => 0,
            Uncommitted::Static(s) => s.len(),
            Uncommitted::Owned(v) => v.len(),
        }
    }

    /// Pushes bytes that have to be copied. There must be some.
    pub fn push_bytes(&mut self, bytes: &[u8])
        requires
            bytes@.len() > 0,
        ensures
            final(self)@ == old(self)@.pushed(bytes@),
            final(self)@ is Owned,
            final(self)@.bytes() == old(self)@.bytes() + bytes@,
    {
        match self {
            Uncommitted::Empty => {
                let mut v: Vec<u8> = Vec::new();
                v.extend_from_slice(bytes);
                *self = Uncommitted::Owned(v);
            },
            Uncommitted::Static(s) => {
                // One buffer for both takes less memory than committing each on its own.
                let mut v: Vec<u8> = Vec::new();
                v.extend_from_slice(s);
                v.extend_from_slice(bytes);
                *self = Uncommitted::Owned(v);
            },
            Uncommitted::Owned(v) => {
                v.extend_from_slice(bytes);
            },
        }
    }

    /// Pushes static bytes. There must be some. They are copied only if others were
    /// pushed before them.
    pub fn push_static_bytes(&mut self, bytes: &'static [u8])
        requires
            bytes@.len() > 0,
        ensures
            final(self)@ == old(self)@.pushed_static(bytes@),
            final(self)@ is Static == old(self)@ is Empty,
            final(self)@ is Owned == !(old(self)@ is Empty),
            final(self)@.bytes() == old(self)@.bytes() + bytes@,
    {
        match self {
            Uncommitted::Empty => {
                *self = Uncommitted::Static(bytes);
            },
            _ => self.push_bytes(bytes),
        }
    }

    /// Takes the bytes out.
    pub fn finish(&mut self) -> (r: Option<Bytes>)
        ensures
            final(self)@ == UncommittedView::Empty,
            match r {
                Some(b) => !(old(self)@ is Empty) && bytes_view(b) == old(self)@.bytes(),
                None => old(self)@ is Empty,
            },
    {
        let mut taken = Uncommitted::Empty;
        std::mem::swap(self, &mut taken);
        match taken {
            Uncommitted::Empty => None,
            Uncommitted::Static(s) => Some(s.into()),
            Uncommitted::Owned(v) => Some(v.into()),
        }
    }
}

/// The text `name(field)`.
pub open spec fn debug_tuple_text(name: Seq<char>, field: Seq<char>) -> Seq<char> {
    name + seq!['('] + field + seq![')']
}

/// The `{:?}` text of a tuple variant with one field, whose own text is given.
pub fn debug_tuple(name: &str, field: &str) -> (s: String)
    ensures
        s@ == debug_tuple_text(name@, field@),
        s@ == name@ + seq!['('] + field@ + seq![')'],
{
    proof {
        reveal_strlit("(");
        reveal_strlit(")");
        assert("("@ == seq!['(']);
        assert(")"@ == seq![')']);
    }
    let mut s = name.to_owned();
    s.append("(");
    s.append(field);
    s.append(")");
    s
}

impl UncommittedView {
    /// The `{:?}` text: the variant, and the bytes as a byte string literal.
    pub open spec fn debug_text(self) -> Seq<char> {
        match self {
            UncommittedView::Empty => "None"@,
            UncommittedView::Static(s) => debug_tuple_text("Static"@, byte_string_text(s)),
            UncommittedView::Owned(s) => debug_tuple_text("Owned"@, byte_string_text(s)),
        }
    }
}

impl Uncommitted {
    /// The `{:?}` text: the variant, and the bytes as a byte string literal.
    pub fn fmt(&self) -> (s: String)
        ensures
            s@ == self@.debug_text(),
            match *self {
                Uncommitted::Empty => s@ == "None"@,
                Uncommitted::Static(v) => s@ == "Static"@ + seq!['('] + byte_string_text(v@)
                    + seq![')'],
                Uncommitted::Owned(v) => s@ == "Owned"@ + seq!['('] + byte_string_text(v@)
                    + seq![')'],
            },
    {
        match self {
            Uncommitted::Empty => "None".to_owned(),
            Uncommitted::Static(s) => {
                let bytes: Bytes = Bytes::from(*s);
                debug_tuple("Static", bytes_debug(&bytes).as_str())
            },
            Uncommitted::Owned(v) => {
                let copy = v.clone();
                assert(copy@ == v@);
                let bytes: Bytes = Bytes::from(copy);
                debug_tuple("Owned", bytes_debug(&bytes).as_str())
            },
        }
    }
}

impl From<Vec<u8>> for Uncommitted {
    /// Takes the vector over, without copying its bytes.
    fn from(bytes: Vec<u8>) -> (r: Self)
        ensures
            r is Empty == (bytes@.len() == 0),
            bytes@.len() > 0 ==> r == Uncommitted::Owned(bytes),
    {
        if bytes.is_empty() {
            Uncommitted::Empty
        } else {
            Uncommitted::Owned(bytes)
        }
    }
}

impl vstd::std_specs::convert::FromSpecImpl<Vec<u8>> for Uncommitted {
    open spec fn obeys_from_spec() -> bool {
        true
    }

    open spec fn from_spec(v: Vec<u8>) -> Uncommitted {
        if v@.len() == 0 {
            Uncommitted::Empty
        } else {
            Uncommitted::Owned(v)
        }
    }
}

/// Puts a rope together from bytes and from other ropes, whose contents it shares.
pub struct RopeBuilder {
    /// The number of committed bytes.
    length: usize,
    /// The elements of the rope so far.
    committed: Vec<RopeElem>,
    /// Bytes after these, which may still grow.
    uncommitted: Uncommitted,
}

/// What a push of bytes that have to be copied does: they join the bytes that are not
/// committed.
pub open spec fn pushes_bytes(before: RopeBuilder, bytes: Seq<u8>, after: RopeBuilder) -> bool {
    if bytes.len() == 0 {
        after == before
    } else {
        &&& after.elements() == before.elements()
        &&& after.uncommitted() == before.uncommitted().pushed(bytes)
    }
}

/// What a push of static bytes does. Those that take less room than a handle on them
/// join the bytes that are not committed. Others become an element of their own.
pub open spec fn pushes_static(before: RopeBuilder, bytes: Seq<u8>, after: RopeBuilder) -> bool {
    if bytes.len() == 0 {
        after == before
    } else if bytes.len() < vstd::layout::size_of::<Bytes>() {
        &&& after.elements() == before.elements()
        &&& after.uncommitted() == before.uncommitted().pushed_static(bytes)
    } else {
        &&& after.committed() == before.flushed().push(bytes)
        &&& after.elements().len() > 0
        &&& after.elements().last() is Local
        &&& before.commits_to(after.elements().drop_last())
        &&& after.uncommitted() == UncommittedView::Empty
    }
}

/// What appending a rope does: its tree becomes an element, unless it is empty.
pub open spec fn appends_rope(before: RopeBuilder, rope: Rope, after: RopeBuilder) -> bool {
    if rope@.len() == 0 {
        after == before
    } else {
        &&& after.committed() == before.flushed() + rope.chunks()
        &&& after.elements().len() > 0
        &&& after.elements().last() == RopeElem::Shared(rope.inner())
        &&& before.commits_to(after.elements().drop_last())
        &&& after.uncommitted() == UncommittedView::Empty
    }
}

/// What committing does: all bytes become part of the elements, and if they already are,
/// nothing happens.
pub open spec fn commits(before: RopeBuilder, after: RopeBuilder) -> bool {
    &&& after.committed() == before.flushed()
    &&& before.commits_to(after.elements())
    &&& after.uncommitted() == UncommittedView::Empty
    &&& before.uncommitted() is Empty ==> after == before
}

impl RopeBuilder {
    /// The elements that are committed.
    pub closed spec fn elements(&self) -> Seq<RopeElem> {
        self.committed@
    }

    /// The chunks that are committed.
    pub open spec fn committed(&self) -> Seq<Seq<u8>> {
        elems_chunks(self.elements())
    }

    /// The bytes that are not committed.
    pub closed spec fn uncommitted(&self) -> UncommittedView {
        self.uncommitted@
    }

    /// The chunks once everything is committed.
    pub open spec fn flushed(&self) -> Seq<Seq<u8>> {
        if self.uncommitted() is Empty {
            self.committed()
        } else {
            self.committed().push(self.uncommitted().bytes())
        }
    }

    /// Whether these are the elements once everything is committed: those that already
    /// are, and one more where there are bytes that are not.
    pub open spec fn commits_to(&self, elements: Seq<RopeElem>) -> bool {
        if self.uncommitted() is Empty {
            elements == self.elements()
        } else {
            &&& elements.len() == self.elements().len() + 1
            &&& elements.drop_last() == self.elements()
            &&& elements.last() matches RopeElem::Local(b) && bytes_view(b)
                == self.uncommitted().bytes()
        }
    }

    /// The length is the number of committed bytes, no part is empty, and the number
    /// of all bytes fits a machine word.
    pub closed spec fn wf(&self) -> bool {
        &&& self.length == self.committed().flatten().len()
        &&& elems_wf(self.elements())
        &&& self.uncommitted().wf()
        &&& self@.len() <= usize::MAX
    }

    /// Committing everything keeps the bytes.
    pub proof fn lemma_flushed(&self)
        ensures
            self.flushed().flatten() == self@,
    {
        if self.uncommitted() is Empty {
            assert(self@ == self.committed().flatten());
        } else {
            self.committed().lemma_flatten_push(self.uncommitted().bytes());
        }
    }

    /// Pushes bytes, which are copied. Static bytes and ropes are better pushed as such.
    pub fn push_bytes(&mut self, bytes: &[u8])
        requires
            old(self).wf(),
            old(self)@.len() + bytes@.len() <= usize::MAX,
        ensures
            final(self).wf(),
            pushes_bytes(*old(self), bytes@, *final(self)),
            final(self)@ == old(self)@ + bytes@,
    {
        if bytes.is_empty() {
            assert(self@ + bytes@ == self@);
            return;
        }
        self.uncommitted.push_bytes(bytes);
        assert(self@ == old(self)@ + bytes@);
    }

    /// Pushes static bytes. Where there are enough of them to be worth an element of
    /// their own they are not copied.
    pub fn push_static_bytes(&mut self, bytes: &'static [u8])
        requires
            old(self).wf(),
            old(self)@.len() + bytes@.len() <= usize::MAX,
        ensures
            final(self).wf(),
            pushes_static(*old(self), bytes@, *final(self)),
            final(self)@ == old(self)@ + bytes@,
    {
        if bytes.is_empty() {
            assert(self@ + bytes@ == self@);
            return;
        }
        // A short string costs less in a buffer than a handle on it does, and more
        // bytes may join it there.
        if bytes.len() < std::mem::size_of::<Bytes>() {
            self.uncommitted.push_static_bytes(bytes);
            assert(self@ == old(self)@ + bytes@);
            return;
        }
        self.finish();
        let ghost mid = *self;
        self.length = self.length + bytes.len();
        let b: Bytes = bytes.into();
        self.committed.push(RopeElem::Local(b));
        proof {
            assert(self.elements().drop_last() == mid.elements());
            lemma_commit(mid.elements(), RopeElem::Local(b));
            assert(RopeElem::Local(b).chunks() == seq![bytes@]);
            seq![bytes@].lemma_flatten_one_element();
            assert(mid.committed() + seq![bytes@] == mid.committed().push(bytes@));
            assert(self@ == old(self)@ + bytes@);
        }
    }

    /// Appends a rope. Its contents are shared, not copied.
    pub fn concat(&mut self, other: &Rope)
        requires
            old(self).wf(),
            old(self)@.len() + other@.len() <= usize::MAX,
        ensures
            final(self).wf(),
            appends_rope(*old(self), *other, *final(self)),
            final(self)@ == old(self)@ + other@,
    {
        if other.is_empty() {
            assert(self@ + other@ == self@);
            return;
        }
        self.finish();
        let ghost mid = *self;
        self.length = self.length + other.len();
        self.committed.push(RopeElem::Shared(other.data().clone()));
        proof {
            let e = RopeElem::Shared(other.inner());
            if other.inner().elems().len() == 0 {
                assert(other@.len() == 0);
            }
            assert(self.elements().drop_last() == mid.elements());
            lemma_commit(mid.elements(), e);
            assert(self@ == old(self)@ + other@);
        }
    }

    /// Commits all bytes that were pushed. Doing so again changes nothing.
    pub fn finish(&mut self)
        requires
            old(self).wf(),
        ensures
            final(self).wf(),
            commits(*old(self), *final(self)),
            final(self)@ == old(self)@,
    {
        if let Some(b) = self.uncommitted.finish() {
            self.length = self.length + b.len();
            self.committed.push(RopeElem::Local(b));
            proof {
                assert(self.elements().drop_last() == old(self).elements());
                lemma_commit(old(self).elements(), RopeElem::Local(b));
                seq![bytes_view(b)].lemma_flatten_one_element();
                assert(old(self).committed() + seq![bytes_view(b)] == old(self).committed().push(
                    bytes_view(b),
                ));
            }
        }
        assert(self@ == old(self)@);
    }

    /// The number of bytes that were pushed.
    pub fn len(&self) -> (n: usize)
        requires
            self.wf(),
        ensures
            n == self@.len(),
    {
        self.length + self.uncommitted.len()
    }

    /// Whether no bytes were pushed.
    pub fn is_empty(&self) -> (r: bool)
        requires
            self.wf(),
        ensures
            r == (self@.len() == 0),
    {
        self.len() == 0
    }

    /// The number of committed bytes, the elements that hold them, and the bytes that
    /// are not committed.
    pub fn parts(&self) -> (r: (usize, &Vec<RopeElem>, &Uncommitted))
        requires
            self.wf(),
        ensures
            r.0 == self.committed().flatten().len(),
            r.1@ == self.elements(),
            r.2@ == self.uncommitted(),
    {
        (self.length, &self.committed, &self.uncommitted)
    }

    /// The rope of everything that was pushed.
    pub fn build(self) -> (r: Rope)
        requires
            self.wf(),
        ensures
            r.wf(),
            r.chunks() == self.flushed(),
            self.commits_to(r.inner().elems()),
            r@ == self@,
    {
        let mut this = self;
        this.finish();
        assert(this@ == this.committed().flatten());
        Rope::from_parts(this.length, InnerRope::from(this.committed))
    }
}

/// A builder stands for the bytes that were pushed, in the order of the pushes.
impl View for RopeBuilder {
    type V = Seq<u8>;

    open spec fn view(&self) -> Seq<u8> {
        self.committed().flatten() + self.uncommitted().bytes()
    }
}

/// Committing an element appends its chunks and its bytes.
proof fn lemma_commit(s: Seq<RopeElem>, e: RopeElem)
    ensures
        elems_chunks(s.push(e)) == elems_chunks(s) + e.chunks(),
        elems_chunks(s.push(e)).flatten() == elems_chunks(s).flatten() + e.chunks().flatten(),
        elems_wf(s) && e.wf() ==> elems_wf(s.push(e)),
{
    lemma_elems_chunks_push(s, e);
    lemma_flatten_concat(elems_chunks(s), e.chunks());
}

impl Default for RopeBuilder {
    /// A builder without bytes.
    fn default() -> (r: Self)
        ensures
            r.wf(),
            r.elements() == Seq::<RopeElem>::empty(),
            r.uncommitted() == UncommittedView::Empty,
            r@ == Seq::<u8>::empty(),
    {
        let r = RopeBuilder { length: 0, committed: Vec::new(), uncommitted: Uncommitted::Empty };
        assert(r@ == Seq::<u8>::empty());
        r
    }
}

impl From<&'static str> for RopeBuilder {
    /// A builder to which the string was pushed as static bytes.
    fn from(bytes: &'static str) -> (r: Self)
        ensures
            r.wf(),
            r@ == encode_utf8(bytes@),
            ({
                let b = encode_utf8(bytes@);
                if b.len() < vstd::layout::size_of::<Bytes>() {
                    &&& r.elements() == Seq::<RopeElem>::empty()
                    &&& r.uncommitted() == (if b.len() == 0 {
                        UncommittedView::Empty
                    } else {
                        UncommittedView::Static(b)
                    })
                } else {
                    &&& r.committed() == as_chunks(b)
                    &&& b.len() > 0 ==> r.elements().len() == 1 && r.elements()[0] is Local
                    &&& b.len() > 0 ==> r.committed() == seq![b]
                    &&& r.uncommitted() == UncommittedView::Empty
                }
            }),
    {
        let mut r: RopeBuilder = RopeBuilder::default();
        let b = bytes.as_bytes();
        let n = b.len();
        assert(n == b@.len());
        r.push_static_bytes(b);
        proof {
            assert(r@ == encode_utf8(bytes@));
            if n == 0 {
                assert(encode_utf8(bytes@) == Seq::<u8>::empty());
            }
            assert(Seq::<Seq<u8>>::empty().push(b@) == seq![b@]);
        }
        r
    }
}

impl vstd::std_specs::convert::FromSpecImpl<&'static str> for RopeBuilder {
    open spec fn obeys_from_spec() -> bool {
        false
    }

    open spec fn from_spec(v: &'static str) -> RopeBuilder {
        arbitrary()
    }
}

impl From<Vec<u8>> for RopeBuilder {
    /// A builder that has taken the vector over, without copying its bytes.
    fn from(bytes: Vec<u8>) -> (r: Self)
        ensures
            r.wf(),
            r.elements() == Seq::<RopeElem>::empty(),
            r.uncommitted() == (if bytes@.len() == 0 {
                UncommittedView::Empty
            } else {
                UncommittedView::Owned(bytes@)
            }),
            r@ == bytes@,
    {
        let ghost b = bytes@;
        let n = bytes.len();
        let r = RopeBuilder {
            length: 0,
            committed: Vec::new(),
            uncommitted: Uncommitted::from(bytes),
        };
        assert(r@ == b && n == b.len());
        r
    }
}

impl vstd::std_specs::convert::FromSpecImpl<Vec<u8>> for RopeBuilder {
    open spec fn obeys_from_spec() -> bool {
        false
    }

    open spec fn from_spec(v: Vec<u8>) -> RopeBuilder {
        arbitrary()
    }
}

impl AddAssign<&'static str> for RopeBuilder {
    /// Pushes a string as static bytes.
    fn add_assign(&mut self, rhs: &'static str)
        requires
            old(self).wf(),
            old(self)@.len() + encode_utf8(rhs@).len() <= usize::MAX,
        ensures
            final(self).wf(),
            pushes_static(*old(self), encode_utf8(rhs@), *final(self)),
            final(self)@ == old(self)@ + encode_utf8(rhs@),
    {
        self.push_static_bytes(rhs.as_bytes());
    }
}

impl AddAssign<&Rope> for RopeBuilder {
    /// Appends a rope, whose contents are shared.
    fn add_assign(&mut self, rhs: &Rope)
        requires
            old(self).wf(),
            old(self)@.len() + rhs@.len() <= usize::MAX,
        ensures
            final(self).wf(),
            appends_rope(*old(self), *rhs, *final(self)),
            final(self)@ == old(self)@ + rhs@,
    {
        self.concat(rhs);
    }
}

impl Write for RopeBuilder {
    /// Pushes bytes, all of them.
    fn write(&mut self, bytes: &[u8]) -> (r: std::io::Result<usize>)
        requires
            old(self).wf(),
            old(self)@.len() + bytes@.len() <= usize::MAX,
        ensures
            final(self).wf(),
            r matches Ok(n) && n == bytes@.len(),
            pushes_bytes(*old(self), bytes@, *final(self)),
            final(self)@ == old(self)@ + bytes@,
    {
        self.push_bytes(bytes);
        Ok(bytes.len())
    }

    /// Commits all bytes that were pushed.
    fn flush(&mut self) -> (r: std::io::Result<()>)
        requires
            old(self).wf(),
        ensures
            final(self).wf(),
            r is Ok,
            commits(*old(self), *final(self)),
            final(self)@ == old(self)@,
    {
        self.finish();
        Ok(())
    }
}

} // verus!
