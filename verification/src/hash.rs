//! What a rope tells a hasher.

use crate::elem::{elems_chunks, elems_weight, lemma_elems_chunks_push, InnerRope, RopeElem};
use crate::foreign::bytes_view;
use crate::rope::Rope;
use bytes::Bytes;
use vstd::prelude::*;

verus! {

/// One write to a hasher. A list of writes is what a value tells a hasher, whichever
/// hasher is then fed with it.
#[derive(Debug)]
pub enum HashWrite {
    /// A machine word.
    Word(usize),
    /// A run of bytes, without its length.
    Run(Bytes),
}

/// What a [`HashWrite`] stands for.
#[verifier::ext_equal]
pub enum HashWriteView {
    /// A machine word.
    Word(usize),
    /// A run of bytes.
    Run(Seq<u8>),
}

impl View for HashWrite {
    type V = HashWriteView;

    open spec fn view(&self) -> HashWriteView {
        match *self {
            HashWrite::Word(n) => HashWriteView::Word(n),
            HashWrite::Run(b) => HashWriteView::Run(bytes_view(b)),
        }
    }
}

/// What a list of writes stands for.
pub open spec fn writes(s: Seq<HashWrite>) -> Seq<HashWriteView> {
    s.map_values(|w: HashWrite| w@)
}

/// One write for every chunk.
pub open spec fn chunk_writes(chunks: Seq<Seq<u8>>) -> Seq<HashWriteView> {
    chunks.map_values(|c: Seq<u8>| HashWriteView::Run(c))
}

/// The state of a hasher after some writes, for a hasher that takes words with `word`
/// and runs of bytes one byte after the other with `byte`.
pub open spec fn fed<S>(
    w: Seq<HashWriteView>,
    state: S,
    word: spec_fn(S, usize) -> S,
    byte: spec_fn(S, u8) -> S,
) -> S
    decreases w.len(),
{
    if w.len() == 0 {
        state
    } else {
        let next = match w.first() {
            HashWriteView::Word(n) => word(state, n),
            HashWriteView::Run(b) => b.fold_left(state, byte),
        };
        fed(w.drop_first(), next, word, byte)
    }
}

/// Writing chunk after chunk is writing all their bytes.
pub proof fn lemma_fed_chunks<S>(
    chunks: Seq<Seq<u8>>,
    state: S,
    word: spec_fn(S, usize) -> S,
    byte: spec_fn(S, u8) -> S,
)
    ensures
        fed(chunk_writes(chunks), state, word, byte) == chunks.flatten().fold_left(state, byte),
    decreases chunks.len(),
{
    if chunks.len() > 0 {
        let first = chunks.first();
        let rest = chunks.drop_first();
        let all = chunks.flatten();
        let n = first.len() as int;
        assert(chunk_writes(chunks).first() == HashWriteView::Run(first));
        assert(chunk_writes(chunks).drop_first() == chunk_writes(rest));
        lemma_fed_chunks(rest, first.fold_left(state, byte), word, byte);
        assert(all == first + rest.flatten());
        assert(all.subrange(0, n) == first);
        assert(all.subrange(n, all.len() as int) == rest.flatten());
        all.lemma_fold_left_split(state, byte, n);
    }
}

/// An element weighs no more than the list that it is in.
proof fn lemma_weight_at(s: Seq<RopeElem>, i: int)
    requires
        0 <= i < s.len(),
    ensures
        s[i].weight() <= elems_weight(s),
    decreases s.len(),
{
    if i > 0 {
        assert(s.drop_first()[i - 1] == s[i]);
        lemma_weight_at(s.drop_first(), i - 1);
    }
}

/// Writes that follow chunks are runs of these chunks.
proof fn lemma_runs(before: Seq<HashWrite>, chunks: Seq<Seq<u8>>, after: Seq<HashWrite>)
    requires
        writes(after) == writes(before) + chunk_writes(chunks),
    ensures
        after.len() == before.len() + chunks.len(),
        forall|i: int|
            before.len() <= i < after.len() ==> {
                &&& #[trigger] after[i] is Run
                &&& bytes_view(after[i]->Run_0) == chunks[i - before.len()]
            },
{
    assert(writes(after).len() == after.len());
    assert forall|i: int| before.len() <= i < after.len() implies {
        &&& #[trigger] after[i] is Run
        &&& bytes_view(after[i]->Run_0) == chunks[i - before.len()]
    } by {
        assert(writes(after)[i] == chunk_writes(chunks)[i - before.len()]);
        assert(writes(after)[i] == after[i]@);
    }
}

impl Rope {
    /// What a rope tells a hasher: the length, and then the bytes.
    pub open spec fn hash_writes(&self) -> Seq<HashWriteView> {
        seq![HashWriteView::Word(self@.len() as usize)] + chunk_writes(self.chunks())
    }

    /// Ropes of the same bytes tell a hasher the same, however the bytes are split up:
    /// the length, and then the bytes.
    pub fn deterministic_hash(&self, state: &mut Vec<HashWrite>)
        ensures
            writes(final(state)@) == writes(old(state)@) + self.hash_writes(),
            final(state)@.len() == old(state)@.len() + 1 + self.chunks().len(),
            final(state)@.take(old(state)@.len() as int) == old(state)@,
            final(state)@[old(state)@.len() as int] matches HashWrite::Word(n) && n == self@.len(),
            forall|i: int|
                old(state)@.len() < i < final(state)@.len() ==> {
                    &&& #[trigger] final(state)@[i] is Run
                    &&& bytes_view(final(state)@[i]->Run_0) == self.chunks()[i - old(state)@.len()
                        - 1]
                },
            // The runs, put together, are the bytes of the rope.
            final(state)@.skip(old(state)@.len() + 1int).map_values(
                |w: HashWrite|
                    match w {
                        HashWrite::Run(b) => bytes_view(b),
                        HashWrite::Word(_) => Seq::<u8>::empty(),
                    },
            ).flatten() == self@,
    {
        let n = self.len();
        state.push(HashWrite::Word(n));
        assert(writes(state@) == writes(old(state)@) + seq![HashWriteView::Word(n)]);
        let ghost mid = state@;
        self.data().deterministic_hash(state);
        proof {
            assert(writes(state@) == writes(old(state)@) + self.hash_writes());
            assert(state@[old(state)@.len() as int] == state@.take(mid.len() as int)[old(
                state,
            )@.len() as int]);
            assert(state@.take(old(state)@.len() as int) == mid.take(old(state)@.len() as int));
            assert(mid.take(old(state)@.len() as int) == old(state)@);
            let runs = state@.skip(old(state)@.len() + 1int).map_values(
                |w: HashWrite|
                    match w {
                        HashWrite::Run(b) => bytes_view(b),
                        HashWrite::Word(_) => Seq::<u8>::empty(),
                    },
            );
            assert forall|i: int| 0 <= i < self.chunks().len() implies #[trigger] runs[i]
                == self.chunks()[i] by {
                assert(state@[mid.len() + i] is Run);
            }
            assert(runs == self.chunks());
        }
    }
}

impl InnerRope {
    /// Tells a hasher the bytes, and nothing of the tree.
    pub fn deterministic_hash(&self, state: &mut Vec<HashWrite>)
        ensures
            writes(final(state)@) == writes(old(state)@) + chunk_writes(self.chunks()),
            final(state)@.len() == old(state)@.len() + self.chunks().len(),
            final(state)@.take(old(state)@.len() as int) == old(state)@,
            forall|i: int|
                old(state)@.len() <= i < final(state)@.len() ==> {
                    &&& #[trigger] final(state)@[i] is Run
                    &&& bytes_view(final(state)@[i]->Run_0) == self.chunks()[i - old(state)@.len()]
                },
        decreases elems_weight(self.elems()), 1int,
    {
        let els = self.deref();
        let mut i: usize = 0;
        assert(elems_chunks(els@.take(0)) == Seq::<Seq<u8>>::empty());
        assert(writes(state@) == writes(state@) + chunk_writes(elems_chunks(els@.take(0))));
        while i < els.len()
            invariant
                els@ == self.elems(),
                i <= els@.len(),
                writes(state@) == writes(old(state)@) + chunk_writes(
                    elems_chunks(els@.take(i as int)),
                ),
                state@.len() >= old(state)@.len(),
                state@.take(old(state)@.len() as int) == old(state)@,
            decreases els@.len() - i,
        {
            proof {
                lemma_weight_at(els@, i as int);
                assert(els@.take(i + 1) == els@.take(i as int).push(els@[i as int]));
                lemma_elems_chunks_push(els@.take(i as int), els@[i as int]);
            }
            let ghost mid = state@;
            els[i].deterministic_hash(state);
            assert(state@.take(old(state)@.len() as int) == mid.take(old(state)@.len() as int)) by {
                assert(state@.take(mid.len() as int) == mid);
            }
            i = i + 1;
            assert(writes(state@) == writes(old(state)@) + chunk_writes(
                elems_chunks(els@.take(i as int)),
            ));
        }
        proof {
            assert(els@.take(i as int) == els@);
            lemma_runs(old(state)@, self.chunks(), state@);
        }
    }
}

impl RopeElem {
    /// Tells a hasher the bytes, and nothing of the tree.
    pub fn deterministic_hash(&self, state: &mut Vec<HashWrite>)
        ensures
            writes(final(state)@) == writes(old(state)@) + chunk_writes(self.chunks()),
            final(state)@.len() == old(state)@.len() + self.chunks().len(),
            final(state)@.take(old(state)@.len() as int) == old(state)@,
            forall|i: int|
                old(state)@.len() <= i < final(state)@.len() ==> {
                    &&& #[trigger] final(state)@[i] is Run
                    &&& bytes_view(final(state)@[i]->Run_0) == self.chunks()[i - old(state)@.len()]
                },
        decreases self.weight(), 0int,
    {
        match self {
            RopeElem::Local(bytes) => {
                state.push(HashWrite::Run(bytes.clone()));
                proof {
                    assert(writes(state@) == writes(old(state)@) + chunk_writes(self.chunks()));
                    lemma_runs(old(state)@, self.chunks(), state@);
                }
            },
            RopeElem::Shared(inner) => inner.deterministic_hash(state),
        }
    }
}

} // verus!
