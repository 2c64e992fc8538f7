//! Ropes and when they are equal.

use crate::elem::{
    elems_chunks, elems_wf, lemma_elems_chunks_nonempty, lemma_elems_chunks_one, lemma_flat_split,
    lemma_flat_take_step, lemma_flatten_nonempty, InnerRope, RopeElem,
};
use crate::foreign::bytes_view;
use crate::reader::{ReaderView, RopeReader};
use bytes::Bytes;
use std::io::BufRead;
use vstd::prelude::*;
use vstd::utf8::encode_utf8;

verus! {

/// An immutable string of bytes. Cloning it is cheap, and so is making its contents
/// part of another rope: both share the bytes. See [`crate::RopeBuilder`] for how to
/// put one together.
#[derive(Debug)]
pub struct Rope {
    /// The number of bytes.
    length: usize,
    /// The bytes.
    data: InnerRope,
}

/// What `Into` makes of a value, where the result is a `Bytes`.
pub open spec fn converts_to<T: Into<Bytes>>(value: T, b: Bytes) -> bool {
    call_ensures(<T as Into<Bytes>>::into, (value,), b)
}

/// Bytes as the chunks of a rope: one chunk, or none where there are no bytes.
pub open spec fn as_chunks(s: Seq<u8>) -> Seq<Seq<u8>> {
    if s.len() == 0 {
        Seq::empty()
    } else {
        seq![s]
    }
}

impl Rope {
    /// The tree that holds the bytes.
    pub closed spec fn inner(&self) -> InnerRope {
        self.data
    }

    /// The length is the number of bytes, and no part of the tree is empty.
    #[verifier::type_invariant]
    pub closed spec fn wf(&self) -> bool {
        &&& self.length == self.inner()@.len()
        &&& self.inner().wf()
    }

    /// The runs of bytes that the rope is made of, from left to right.
    pub open spec fn chunks(&self) -> Seq<Seq<u8>> {
        self.inner().chunks()
    }

    /// No part of a well-formed rope's tree is empty.
    pub proof fn lemma_wf(&self)
        requires
            self.wf(),
        ensures
            self.inner().wf(),
            self@.len() <= usize::MAX,
    {
    }

    /// The number of bytes.
    pub fn len(&self) -> (n: usize)
        ensures
            n == self@.len(),
    {
        proof {
            use_type_invariant(self);
        }
        self.length
    }

    /// Whether there are no bytes.
    pub fn is_empty(&self) -> (r: bool)
        ensures
            r == (self@.len() == 0),
    {
        proof {
            use_type_invariant(self);
        }
        self.length == 0
    }

    /// A reader over all bytes. It may outlive the rope.
    pub fn read(&self) -> (r: RopeReader)
        ensures
            r.wf(),
            r.held_root() == Some(self.inner()),
            r@.current is None,
            r@.upcoming == self.chunks(),
            r@.remaining() == self@,
    {
        let r = RopeReader::new(self);
        assert(r@.remaining() == self@);
        r
    }

    /// The tree that holds the bytes.
    pub(crate) fn data(&self) -> (r: &InnerRope)
        ensures
            *r == self.inner(),
            r.wf(),
    {
        proof {
            use_type_invariant(self);
        }
        &self.data
    }

    /// A rope of the given elements, none of which may be empty.
    pub fn new(value: Vec<RopeElem>) -> (r: Rope)
        requires
            elems_wf(value@),
            elems_chunks(value@).flatten().len() <= usize::MAX,
        ensures
            r.wf(),
            r.inner().elems() == value@,
            r.chunks() == elems_chunks(value@),
            r@ == elems_chunks(value@).flatten(),
    {
        Rope::from_data(InnerRope::from(value))
    }

    /// A rope of the given tree.
    fn from_data(data: InnerRope) -> (r: Rope)
        requires
            data@.len() <= usize::MAX,
        ensures
            r.wf(),
            r.inner() == data,
    {
        proof {
            use_type_invariant(&data);
        }
        Rope { length: data.len(), data }
    }

    /// A rope of the given tree, whose length is known.
    pub(crate) fn from_parts(length: usize, data: InnerRope) -> (r: Rope)
        requires
            length == data@.len(),
        ensures
            r.wf(),
            r.inner() == data,
    {
        proof {
            use_type_invariant(&data);
        }
        Rope { length, data }
    }
}

/// A rope stands for its bytes.
impl View for Rope {
    type V = Seq<u8>;

    open spec fn view(&self) -> Seq<u8> {
        self.inner()@
    }
}

impl Clone for Rope {
    /// Shares the bytes.
    fn clone(&self) -> (r: Self)
        ensures
            r == *self,
    {
        proof {
            use_type_invariant(self);
        }
        Rope { length: self.length, data: self.data.clone() }
    }
}

impl Default for Rope {
    /// The rope without bytes.
    fn default() -> (r: Self)
        ensures
            r.wf(),
            r.chunks() == Seq::<Seq<u8>>::empty(),
            r@ == Seq::<u8>::empty(),
    {
        let data: InnerRope = InnerRope::default();
        Rope::from_parts(0, data)
    }
}

impl<T: Into<Bytes>> From<T> for Rope {
    /// A rope of one chunk, or of none where there are no bytes.
    fn from(bytes: T) -> (r: Self)
        ensures
            r.wf(),
            exists|b: Bytes|
                {
                    &&& #[trigger] converts_to(bytes, b)
                    &&& r@ == bytes_view(b)
                    &&& r.chunks() == as_chunks(bytes_view(b))
                    &&& bytes_view(b).len() > 0 ==> r.inner().elems() == seq![RopeElem::Local(b)]
                },
            exists|b: Bytes| #[trigger]
                call_ensures(<T as Into<Bytes>>::into, (bytes,), b) && r@ == bytes_view(b),
            r.chunks() == (if r@.len() == 0 {
                Seq::empty()
            } else {
                seq![r@]
            }),
    {
        let ghost value = bytes;
        let bytes: Bytes = bytes.into();
        assert(converts_to(value, bytes));
        if bytes.is_empty() {
            let r: Rope = Rope::default();
            assert(r@ == bytes_view(bytes));
            r
        } else {
            let length = bytes.len();
            let ghost b = bytes;
            let data = InnerRope::from(vec![RopeElem::Local(bytes)]);
            proof {
                lemma_elems_chunks_one(RopeElem::Local(b));
                assert(data.elems() == seq![RopeElem::Local(b)]);
                seq![bytes_view(b)].lemma_flatten_one_element();
            }
            Rope::from_parts(length, data)
        }
    }
}

impl<T: Into<Bytes>> vstd::std_specs::convert::FromSpecImpl<T> for Rope {
    open spec fn obeys_from_spec() -> bool {
        false
    }

    open spec fn from_spec(v: T) -> Rope {
        arbitrary()
    }
}

impl From<Rope> for RopeElem {
    /// An element that shares the contents of a rope.
    fn from(value: Rope) -> (r: Self)
        ensures
            r == RopeElem::Shared(value.inner()),
            r.chunks() == value.chunks(),
    {
        RopeElem::Shared(value.data)
    }
}

impl vstd::std_specs::convert::FromSpecImpl<Rope> for RopeElem {
    open spec fn obeys_from_spec() -> bool {
        true
    }

    open spec fn from_spec(v: Rope) -> RopeElem {
        RopeElem::Shared(v.inner())
    }
}

impl From<&str> for RopeElem {
    /// An element of a copy of the string's bytes.
    fn from(value: &str) -> (r: Self)
        ensures
            r matches RopeElem::Local(b) && bytes_view(b) == encode_utf8(value@),
    {
        RopeElem::Local(value.to_owned().into())
    }
}

impl vstd::std_specs::convert::FromSpecImpl<&str> for RopeElem {
    open spec fn obeys_from_spec() -> bool {
        false
    }

    open spec fn from_spec(v: &str) -> RopeElem {
        arbitrary()
    }
}

/// Whether two slices hold the same bytes.
fn slices_equal(a: &[u8], b: &[u8]) -> (r: bool)
    ensures
        r == (a@ == b@),
{
    if a.len() != b.len() {
        return false;
    }
    let mut i: usize = 0;
    while i < a.len()
        invariant
            a@.len() == b@.len(),
            i <= a@.len(),
            forall|j: int| 0 <= j < i ==> a@[j] == b@[j],
        decreases a@.len() - i,
    {
        if a[i] != b[i] {
            assert(a@[i as int] != b@[i as int]);
            return false;
        }
        i = i + 1;
    }
    assert(a@ == b@);
    true
}

/// Strings with a common prefix are equal exactly when what follows it is.
proof fn lemma_same_prefix(p: Seq<u8>, a: Seq<u8>, b: Seq<u8>)
    ensures
        (p + a == p + b) == (a == b),
{
    if p + a == p + b {
        assert((p + a).skip(p.len() as int) == a);
        assert((p + b).skip(p.len() as int) == b);
    }
}

/// Well-formed elements, if there are any, hold bytes.
proof fn lemma_rest_nonempty(s: Seq<RopeElem>, i: int)
    requires
        elems_wf(s),
        0 <= i < s.len(),
    ensures
        elems_chunks(s.skip(i)).flatten().len() > 0,
{
    let rest = s.skip(i);
    assert forall|j: int| 0 <= j < rest.len() implies (#[trigger] rest[j]).wf() by {
        assert(rest[j] == s[j + i]);
    }
    lemma_elems_chunks_nonempty(rest);
    lemma_flatten_nonempty(elems_chunks(rest));
}

impl PartialEq for Rope {
    /// Ropes are equal when they hold the same bytes, however these are split up.
    fn eq(&self, other: &Self) -> (r: bool)
        ensures
            r == (self@ == other@),
    {
        if self.data.ptr_eq(&other.data) {
            return true;
        }
        if self.len() != other.len() {
            return false;
        }
        // Where the ropes begin alike, element by element, much of the comparison can
        // be done without looking at the bytes.
        let left = self.data.deref();
        let right = other.data.deref();
        let len = if left.len() < right.len() {
            left.len()
        } else {
            right.len()
        };
        let mut index: usize = 0;
        let ghost l = left@;
        let ghost r = right@;
        while index < len
            invariant
                l == left@,
                r == right@,
                l == self.inner().elems(),
                r == other.inner().elems(),
                index <= len,
                len == vstd::math::min(l.len() as int, r.len() as int),
                elems_chunks(l.take(index as int)).flatten() == elems_chunks(
                    r.take(index as int),
                ).flatten(),
            decreases len - index,
        {
            proof {
                lemma_flat_take_step(l, index as int);
                lemma_flat_take_step(r, index as int);
            }
            match left[index].maybe_eq(&right[index]) {
                Some(true) => {
                    index = index + 1;
                },
                Some(false) => {
                    proof {
                        lemma_elements_differ(l, r, index as int);
                    }
                    return false;
                },
                None => {
                    break;
                },
            }
        }
        proof {
            lemma_flat_split(l, index as int);
            lemma_flat_split(r, index as int);
        }
        if index == len {
            // Every element holds bytes, so ropes of one length end together.
            proof {
                if l.len() > len {
                    lemma_rest_nonempty(l, index as int);
                    assert(r.skip(index as int) == Seq::<RopeElem>::empty());
                } else if r.len() > len {
                    lemma_rest_nonempty(r, index as int);
                    assert(l.skip(index as int) == Seq::<RopeElem>::empty());
                } else {
                    assert(l.skip(index as int) == r.skip(index as int));
                }
            }
            return left.len() == right.len();
        }
        // From here on only the bytes can tell.
        let mut left = RopeReader::new_at(&self.data, index);
        let mut right = RopeReader::new_at(&other.data, index);
        proof {
            lemma_same_prefix(
                elems_chunks(l.take(index as int)).flatten(),
                elems_chunks(l.skip(index as int)).flatten(),
                elems_chunks(r.skip(index as int)).flatten(),
            );
            assert(left@.remaining() == elems_chunks(l.skip(index as int)).flatten());
            assert(right@.remaining() == elems_chunks(r.skip(index as int)).flatten());
        }
        loop
            invariant
                left.wf(),
                right.wf(),
                (self@ == other@) == (left@.remaining() == right@.remaining()),
            decreases left@.remaining().len(),
        {
            let ghost lv = left@;
            let ghost rv = right@;
            proof {
                left.lemma_wf();
                right.lemma_wf();
                lv.lemma_opened();
                rv.lemma_opened();
            }
            let len;
            match (left.fill_buf(), right.fill_buf()) {
                (Ok(a), Ok(b)) => {
                    len = if a.len() < b.len() {
                        a.len()
                    } else {
                        b.len()
                    };
                    // A reader has nothing to offer at the end only.
                    if len == 0 {
                        return a.len() == b.len();
                    }
                    proof {
                        lemma_compare_front(lv.opened(), rv.opened(), len as int);
                    }
                    if !slices_equal(&a[0..len], &b[0..len]) {
                        return false;
                    }
                },
                // Reading a rope never fails.
                _ => {
                    return false;
                },
            }
            proof {
                lv.opened().lemma_consumed(len as int);
                rv.opened().lemma_consumed(len as int);
            }
            left.consume(len);
            right.consume(len);
        }
    }
}

impl Eq for Rope {

}

/// Equality of ropes is equality of their bytes.
impl vstd::std_specs::cmp::PartialEqSpecImpl for Rope {
    open spec fn obeys_eq_spec() -> bool {
        true
    }

    open spec fn eq_spec(&self, other: &Rope) -> bool {
        self@ == other@
    }
}

/// Lists whose elements hold the same bytes up to one that differs in a section of
/// equal length hold different bytes.
proof fn lemma_elements_differ(l: Seq<RopeElem>, r: Seq<RopeElem>, i: int)
    requires
        0 <= i < l.len(),
        0 <= i < r.len(),
        elems_chunks(l.take(i)).flatten() == elems_chunks(r.take(i)).flatten(),
        l[i].chunks().flatten().len() == r[i].chunks().flatten().len(),
        l[i].chunks().flatten() != r[i].chunks().flatten(),
    ensures
        elems_chunks(l).flatten() != elems_chunks(r).flatten(),
{
    lemma_flat_split(l, i + 1);
    lemma_flat_split(r, i + 1);
    lemma_flat_take_step(l, i);
    lemma_flat_take_step(r, i);
    let p = elems_chunks(l.take(i)).flatten();
    let a = l[i].chunks().flatten();
    let b = r[i].chunks().flatten();
    if elems_chunks(l).flatten() == elems_chunks(r).flatten() {
        let all = elems_chunks(l).flatten();
        assert(all.take((p.len() + a.len()) as int) == p + a);
        assert(all.take((p.len() + b.len()) as int) == p + b);
        lemma_same_prefix(p, a, b);
    }
}

/// Two readers have the same bytes left exactly when the next `n` bytes agree and the
/// bytes after them do.
proof fn lemma_compare_front(a: ReaderView, b: ReaderView, n: int)
    requires
        0 <= n <= a.front().len(),
        n <= b.front().len(),
    ensures
        (a.remaining() == b.remaining()) == (a.front().subrange(0, n) == b.front().subrange(0, n)
            && a.remaining().skip(n) == b.remaining().skip(n)),
{
    assert(a.remaining() == a.front().subrange(0, n) + a.remaining().skip(n));
    assert(b.remaining() == b.front().subrange(0, n) + b.remaining().skip(n));
    assert(a.remaining().take(n) == a.front().subrange(0, n));
    assert(b.remaining().take(n) == b.front().subrange(0, n));
}

} // verus!
