//! The tree behind a rope: sections of bytes, and subtrees shared with other ropes.

use crate::foreign::bytes_view;
use bytes::Bytes;
use std::sync::Arc;
use vstd::prelude::*;
use vstd::seq_lib::lemma_flatten_concat;

verus! {

/// A shareable list of rope elements. Cloning it shares the list.
#[derive(Debug)]
pub struct InnerRope(Arc<Vec<RopeElem>>);

/// One element of a rope.
#[derive(Debug)]
pub enum RopeElem {
    /// Bytes that belong to this rope directly.
    Local(Bytes),
    /// The elements of another rope.
    Shared(InnerRope),
}

/// The runs of bytes below a list of elements, from left to right.
pub open spec fn elems_chunks(s: Seq<RopeElem>) -> Seq<Seq<u8>>
    decreases s,
{
    if s.len() == 0 {
        Seq::empty()
    } else {
        s.first().chunks() + elems_chunks(s.drop_first())
    }
}

/// Every element of the list holds at least one byte, at every depth.
pub open spec fn elems_wf(s: Seq<RopeElem>) -> bool
    decreases s,
{
    forall|i: int| 0 <= i < s.len() ==> (#[trigger] s[i]).wf()
}

/// The number of nodes below a list of elements, a shared list counted twice.
pub open spec fn elems_weight(s: Seq<RopeElem>) -> nat
    decreases s,
{
    if s.len() == 0 {
        0
    } else {
        s.first().weight() + elems_weight(s.drop_first())
    }
}

impl RopeElem {
    /// The runs of bytes of this element, from left to right.
    pub open spec fn chunks(self) -> Seq<Seq<u8>>
        decreases self,
    {
        match self {
            RopeElem::Local(b) => seq![bytes_view(b)],
            RopeElem::Shared(r) => elems_chunks(r.elems()),
        }
    }

    /// The element holds at least one byte, and so does every element below it.
    pub open spec fn wf(self) -> bool
        decreases self,
    {
        match self {
            RopeElem::Local(b) => bytes_view(b).len() > 0,
            RopeElem::Shared(r) => r.elems().len() > 0 && elems_wf(r.elems()),
        }
    }

    /// The number of nodes of this element, a shared list counted twice.
    pub open spec fn weight(self) -> nat
        decreases self,
    {
        match self {
            RopeElem::Local(_) => 1,
            RopeElem::Shared(r) => 2 + elems_weight(r.elems()),
        }
    }
}

impl InnerRope {
    /// The elements, from left to right.
    pub closed spec fn elems(self) -> Seq<RopeElem> {
        self.0@
    }

    /// No section of bytes is empty, and no shared list is.
    #[verifier::type_invariant]
    pub open spec fn wf(self) -> bool {
        elems_wf(self.elems())
    }

    /// The runs of bytes of the whole tree, from left to right.
    pub open spec fn chunks(self) -> Seq<Seq<u8>> {
        elems_chunks(self.elems())
    }
}

/// An inner rope stands for the bytes of its chunks, one after the other.
impl View for InnerRope {
    type V = Seq<u8>;

    open spec fn view(&self) -> Seq<u8> {
        self.chunks().flatten()
    }
}

/// Splitting a list of elements splits its chunks.
pub proof fn lemma_elems_chunks_concat(a: Seq<RopeElem>, b: Seq<RopeElem>)
    ensures
        elems_chunks(a + b) == elems_chunks(a) + elems_chunks(b),
    decreases a.len(),
{
    if a.len() == 0 {
        assert(a + b == b);
        assert(elems_chunks(a) + elems_chunks(b) == elems_chunks(b));
    } else {
        assert((a + b).drop_first() == a.drop_first() + b);
        assert((a + b).first() == a.first());
        lemma_elems_chunks_concat(a.drop_first(), b);
        assert(elems_chunks(a + b) == elems_chunks(a) + elems_chunks(b));
    }
}

/// A list of one element has that element's chunks.
pub proof fn lemma_elems_chunks_one(e: RopeElem)
    ensures
        elems_chunks(seq![e]) == e.chunks(),
{
    assert(seq![e].drop_first() == Seq::<RopeElem>::empty());
    assert(elems_chunks(seq![e].drop_first()) == Seq::<Seq<u8>>::empty());
    assert(e.chunks() + Seq::<Seq<u8>>::empty() == e.chunks());
}

/// Appending an element appends its chunks.
pub proof fn lemma_elems_chunks_push(s: Seq<RopeElem>, e: RopeElem)
    ensures
        elems_chunks(s.push(e)) == elems_chunks(s) + e.chunks(),
{
    assert(s.push(e) == s + seq![e]);
    lemma_elems_chunks_concat(s, seq![e]);
    lemma_elems_chunks_one(e);
}

/// The chunks from index `i` on are those of element `i`, then those from `i + 1` on.
pub proof fn lemma_elems_chunks_step(s: Seq<RopeElem>, i: int)
    requires
        0 <= i < s.len(),
    ensures
        elems_chunks(s.skip(i)) == s[i].chunks() + elems_chunks(s.skip(i + 1)),
        elems_weight(s.skip(i)) == s[i].weight() + elems_weight(s.skip(i + 1)),
{
    assert(s.skip(i).first() == s[i]);
    assert(s.skip(i).drop_first() == s.skip(i + 1));
}

/// Well-formed elements have at least one chunk each, and no chunk is empty.
pub proof fn lemma_elems_chunks_nonempty(s: Seq<RopeElem>)
    requires
        elems_wf(s),
    ensures
        elems_chunks(s).len() >= s.len(),
        forall|i: int|
            0 <= i < elems_chunks(s).len() ==> (#[trigger] elems_chunks(s)[i]).len() > 0,
    decreases s, 0nat,
{
    if s.len() > 0 {
        let rest = s.drop_first();
        assert(s[0].wf());
        assert forall|i: int| 0 <= i < rest.len() implies (#[trigger] rest[i]).wf() by {
            assert(rest[i] == s[i + 1]);
        }
        lemma_elem_chunks_nonempty(s[0]);
        lemma_elems_chunks_nonempty(rest);
    }
}

/// A well-formed element has at least one chunk, and none of its chunks is empty.
pub proof fn lemma_elem_chunks_nonempty(e: RopeElem)
    requires
        e.wf(),
    ensures
        e.chunks().len() > 0,
        forall|i: int| 0 <= i < e.chunks().len() ==> (#[trigger] e.chunks()[i]).len() > 0,
    decreases e, 1nat,
{
    match e {
        RopeElem::Local(_) => {},
        RopeElem::Shared(r) => {
            lemma_elems_chunks_nonempty(r.elems());
        },
    }
}

/// Chunks that are not empty flatten to at least as many bytes as there are chunks.
pub proof fn lemma_flatten_nonempty(s: Seq<Seq<u8>>)
    requires
        forall|i: int| 0 <= i < s.len() ==> (#[trigger] s[i]).len() > 0,
    ensures
        s.flatten().len() >= s.len(),
    decreases s.len(),
{
    if s.len() > 0 {
        let rest = s.drop_first();
        assert forall|i: int| 0 <= i < rest.len() implies (#[trigger] rest[i]).len() > 0 by {
            assert(rest[i] == s[i + 1]);
        }
        assert(s[0].len() > 0);
        lemma_flatten_nonempty(rest);
    }
}

/// `std::sync::Arc::ptr_eq` on the lists of two inner ropes. When it finds one
/// allocation behind both, the two lists are one and the same. Which lists share an
/// allocation depends on how they came to be, so a negative answer says nothing.
#[verifier::external_body]
fn arc_ptr_eq(a: &Arc<Vec<RopeElem>>, b: &Arc<Vec<RopeElem>>) -> (r: bool)
    ensures
        r ==> *a == *b,
{
    Arc::ptr_eq(a, b)
}

impl InnerRope {
    /// Makes an inner rope of the given elements, none of which may be empty.
    pub fn from(els: Vec<RopeElem>) -> (r: InnerRope)
        requires
            elems_wf(els@),
        ensures
            r.elems() == els@,
            r.wf(),
    {
        InnerRope(Arc::new(els))
    }

    /// The elements, from left to right.
    pub fn deref(&self) -> (r: &Vec<RopeElem>)
        ensures
            r@ == self.elems(),
            self.wf(),
    {
        proof {
            use_type_invariant(self);
        }
        &self.0
    }

    /// Whether both are handles on the same shared list. They may hold equal
    /// elements and still not be.
    pub(crate) fn ptr_eq(&self, other: &InnerRope) -> (r: bool)
        ensures
            r ==> *self == *other,
    {
        arc_ptr_eq(&self.0, &other.0)
    }

    /// The number of bytes in the tree.
    pub fn len(&self) -> (n: usize)
        requires
            self@.len() <= usize::MAX,
        ensures
            n == self@.len(),
        decreases *self,
    {
        let els = self.deref();
        let mut n: usize = 0;
        let mut i: usize = 0;
        while i < els.len()
            invariant
                els@ == self.elems(),
                i <= els@.len(),
                self@.len() <= usize::MAX,
                n == elems_chunks(els@.take(i as int)).flatten().len(),
            decreases els@.len() - i,
        {
            proof {
                lemma_flat_split(els@, i as int);
                lemma_flat_split(els@, i + 1);
                lemma_flat_take_step(els@, i as int);
            }
            n = n + els[i].len();
            i = i + 1;
        }
        proof {
            assert(els@.take(els@.len() as int) == els@);
        }
        n
    }
}

/// The bytes before index `i`, then those from it on, are all the bytes.
pub proof fn lemma_flat_split(s: Seq<RopeElem>, i: int)
    requires
        0 <= i <= s.len(),
    ensures
        elems_chunks(s).flatten() == elems_chunks(s.take(i)).flatten() + elems_chunks(
            s.skip(i),
        ).flatten(),
{
    assert(s.take(i) + s.skip(i) == s);
    lemma_elems_chunks_concat(s.take(i), s.skip(i));
    lemma_flatten_concat(elems_chunks(s.take(i)), elems_chunks(s.skip(i)));
}

/// Taking one element more takes its bytes more.
pub proof fn lemma_flat_take_step(s: Seq<RopeElem>, i: int)
    requires
        0 <= i < s.len(),
    ensures
        elems_chunks(s.take(i + 1)).flatten() == elems_chunks(s.take(i)).flatten()
            + s[i].chunks().flatten(),
{
    assert(s.take(i + 1) == s.take(i).push(s[i]));
    lemma_elems_chunks_push(s.take(i), s[i]);
    lemma_flatten_concat(elems_chunks(s.take(i)), s[i].chunks());
}

impl Clone for InnerRope {
    /// Shares the list.
    fn clone(&self) -> (r: Self)
        ensures
            r == *self,
    {
        proof {
            use_type_invariant(self);
        }
        InnerRope(self.0.clone())
    }
}

impl Default for InnerRope {
    /// The inner rope without elements.
    fn default() -> (r: Self)
        ensures
            r.elems() == Seq::<RopeElem>::empty(),
    {
        InnerRope(Arc::new(Vec::new()))
    }
}

impl RopeElem {
    /// The number of bytes in this element.
    pub fn len(&self) -> (n: usize)
        requires
            self.chunks().flatten().len() <= usize::MAX,
        ensures
            n == self.chunks().flatten().len(),
        decreases *self,
    {
        match self {
            RopeElem::Local(b) => {
                proof {
                    seq![bytes_view(*b)].lemma_flatten_one_element();
                }
                b.len()
            },
            RopeElem::Shared(r) => r.len(),
        }
    }

    /// Tells whether two elements hold the same bytes, where that shows without
    /// looking at the elements around them. Sections of equal length are compared,
    /// and handles on one shared list are equal. Everything else is left open with
    /// `None`: the bytes that differ may turn up in a following element.
    ///
    /// Whether two equal lists are one is a matter of where they are kept.
    pub fn maybe_eq(&self, other: &RopeElem) -> (r: Option<bool>)
        ensures
            r == compared(*self, *other, false) || (*self == *other && r == compared(
                *self,
                *other,
                true,
            )),
            r matches Some(same) ==> {
                &&& self.chunks().flatten().len() == other.chunks().flatten().len()
                &&& same == (self.chunks().flatten() == other.chunks().flatten())
            },
    {
        let one_list = match (self, other) {
            (RopeElem::Shared(a), RopeElem::Shared(b)) => a.ptr_eq(b),
            _ => false,
        };
        proof {
            lemma_compared(*self, *other, one_list);
        }
        self.maybe_eq_knowing(other, one_list)
    }

    /// Compares two elements as [`RopeElem::maybe_eq`] does, when it is known whether
    /// they are handles on one shared list.
    pub fn maybe_eq_knowing(&self, other: &RopeElem, one_list: bool) -> (r: Option<bool>)
        ensures
            r == compared(*self, *other, one_list),
    {
        match (self, other) {
            (RopeElem::Local(a), RopeElem::Local(b)) => {
                if a.len() == b.len() {
                    return Some(*a == *b);
                }
                None
            },
            (RopeElem::Shared(_), RopeElem::Shared(_)) => {
                if one_list {
                    return Some(true);
                }
                None
            },
            _ => None,
        }
    }
}

/// What comparing two elements on their own gives. Of two lists it has to be known
/// whether they are one.
pub open spec fn compared(a: RopeElem, b: RopeElem, one_list: bool) -> Option<bool> {
    match (a, b) {
        (RopeElem::Local(x), RopeElem::Local(y)) => if bytes_view(x).len() == bytes_view(y).len() {
            Some(bytes_view(x) == bytes_view(y))
        } else {
            None
        },
        (RopeElem::Shared(_), RopeElem::Shared(_)) => if one_list {
            Some(true)
        } else {
            None
        },
        _ => None,
    }
}

/// An answer tells whether the bytes are the same, and there is one only where there
/// are equally many.
pub proof fn lemma_compared(a: RopeElem, b: RopeElem, one_list: bool)
    requires
        one_list && a is Shared && b is Shared ==> a == b,
    ensures
        compared(a, b, one_list) matches Some(same) ==> {
            &&& a.chunks().flatten().len() == b.chunks().flatten().len()
            &&& same == (a.chunks().flatten() == b.chunks().flatten())
        },
{
    if let RopeElem::Local(x) = a {
        seq![bytes_view(x)].lemma_flatten_one_element();
    }
    if let RopeElem::Local(y) = b {
        seq![bytes_view(y)].lemma_flatten_one_element();
    }
}

impl Clone for RopeElem {
    /// Another handle on the same bytes.
    fn clone(&self) -> (r: Self)
        ensures
            r.chunks() == self.chunks(),
            self.wf() ==> r.wf(),
            r is Shared == *self is Shared,
            *self is Shared ==> r == *self,
    {
        match self {
            RopeElem::Local(b) => RopeElem::Local(b.clone()),
            RopeElem::Shared(r) => RopeElem::Shared(r.clone()),
        }
    }
}

} // verus!
