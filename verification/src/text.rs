//! Ropes as text.

use crate::elem::{
    elems_weight, lemma_elems_chunks_nonempty, lemma_elems_chunks_one, InnerRope, RopeElem,
};
use crate::foreign::{bytes_view, utf8_error_of};
use crate::reader::RopeReader;
use crate::rope::Rope;
use std::borrow::Cow;
use std::str::Utf8Error;
use vstd::prelude::*;
use vstd::utf8::{encode_utf8, valid_utf8};

verus! {

/// Why a rope has no text.
#[derive(Debug)]
pub enum ToStrError {
    /// The only chunk is not valid UTF-8.
    Utf8(Utf8Error),
    /// The chunks, one after the other, are not valid UTF-8.
    Stream,
}

impl ToStrError {
    /// What to tell the user.
    pub fn message(&self) -> (s: &'static str)
        ensures
            s@ == "failed to convert rope into string"@,
    {
        "failed to convert rope into string"
    }
}

/// What taking a tree of the given chunks for text gives: the text exactly when the
/// bytes are valid UTF-8. The bytes of a single chunk serve as they are, those of
/// several are put together first.
pub open spec fn is_text_of(r: Result<Cow<'_, str>, ToStrError>, chunks: Seq<Seq<u8>>) -> bool {
    match r {
        Ok(s) => {
            &&& valid_utf8(chunks.flatten())
            &&& encode_utf8(s@) == chunks.flatten()
            &&& (s is Borrowed) == (chunks.len() <= 1)
        },
        Err(e) => {
            &&& !valid_utf8(chunks.flatten())
            &&& (e is Utf8) == (chunks.len() <= 1)
            &&& e matches ToStrError::Utf8(u) ==> u == utf8_error_of(chunks.flatten())
        },
    }
}

impl InnerRope {
    /// The text of the whole tree.
    pub fn to_str(&self) -> (r: Result<Cow<'_, str>, ToStrError>)
        ensures
            is_text_of(r, self.chunks()),
            r is Ok == valid_utf8(self@),
            r matches Ok(s) ==> encode_utf8(s@) == self@,
            r matches Ok(s) ==> (s is Borrowed) == (self.chunks().len() <= 1),
            r matches Err(e) ==> (e is Utf8) == (self.chunks().len() <= 1),
            r matches Err(ToStrError::Utf8(u)) ==> u == utf8_error_of(self@),
        decreases elems_weight(self.elems()),
    {
        let els = self.deref();
        if els.len() == 0 {
            proof {
                reveal_strlit("");
                assert(""@ == Seq::<char>::empty());
                assert(encode_utf8(""@) == Seq::<u8>::empty());
                vstd::utf8::encode_utf8_valid_utf8(""@);
            }
            return Ok(Cow::Borrowed(""));
        }
        if els.len() == 1 {
            proof {
                assert(els@ == seq![els@[0]]);
                lemma_elems_chunks_one(els@[0]);
                assert(elems_weight(els@) == els@[0].weight() + elems_weight(els@.drop_first()));
            }
            return match &els[0] {
                RopeElem::Shared(inner) => inner.to_str(),
                RopeElem::Local(bytes) => {
                    proof {
                        seq![bytes_view(*bytes)].lemma_flatten_one_element();
                    }
                    match std::str::from_utf8(bytes) {
                        Ok(s) => Ok(Cow::Borrowed(s)),
                        Err(e) => Err(ToStrError::Utf8(e)),
                    }
                },
            };
        }
        proof {
            lemma_elems_chunks_nonempty(els@);
            assert(els@.skip(0) == els@);
        }
        let mut reader = RopeReader::new_at(self, 0);
        assert(reader@.remaining() == self.chunks().flatten());
        let bytes = reader.read_all();
        match std::str::from_utf8(bytes.as_slice()) {
            Ok(s) => Ok(Cow::Owned(s.to_owned())),
            Err(_) => Err(ToStrError::Stream),
        }
    }
}

impl Rope {
    /// The text of the rope.
    pub fn to_str(&self) -> (r: Result<Cow<'_, str>, ToStrError>)
        ensures
            is_text_of(r, self.chunks()),
            r is Ok == valid_utf8(self@),
            r matches Ok(s) ==> encode_utf8(s@) == self@,
            r matches Ok(s) ==> (s is Borrowed) == (self.chunks().len() <= 1),
            r matches Err(e) ==> (e is Utf8) == (self.chunks().len() <= 1),
            r matches Err(ToStrError::Utf8(u)) ==> u == utf8_error_of(self@),
    {
        self.data().to_str()
    }
}

} // verus!
