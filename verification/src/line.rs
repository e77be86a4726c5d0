//! One logical line of the document: either owned mutable bytes, or a
//! borrowed window into a shared immutable blob loaded from disk.

use std::rc::Rc;
use vstd::prelude::*;

verus! {

/// Relies on `Rc::clone`: per its standard-library documentation it returns
/// a new reference-counted pointer to the same allocation, so the new handle
/// holds the same bytes.
#[verifier::external_body]
pub fn clone_blob(blob: &Rc<Vec<u8>>) -> (r: Rc<Vec<u8>>)
    ensures
        r == *blob,
{
    Rc::clone(blob)
}

/// One line of text, as UTF-8 bytes holding no newline.
pub enum Line {
    /// Line text owned by this value.
    Owned(Vec<u8>),
    /// A `[start, end)` window into a shared immutable blob.
    Shared(Rc<Vec<u8>>, usize, usize),
}

impl View for Line {
    type V = Seq<u8>;

    open spec fn view(&self) -> Seq<u8> {
        match self {
            Line::Owned(v) => v@,
            Line::Shared(blob, start, end) => blob@.subrange(*start as int, *end as int),
        }
    }
}

impl Line {
    /// The window of a shared line lies within its blob.
    pub open spec fn wf(&self) -> bool {
        match self {
            Line::Owned(_) => true,
            Line::Shared(blob, start, end) => *start <= *end <= blob@.len(),
        }
    }

    /// An owned line holding the given bytes.
    pub fn new_owned(data: Vec<u8>) -> (r: Line)
        ensures
            r@ == data@,
            r.wf(),
    {
        Line::Owned(data)
    }

    /// An empty owned line.
    pub fn new_empty() -> (r: Line)
        ensures
            r@ == Seq::<u8>::empty(),
            r.wf(),
    {
        Line::Owned(Vec::new())
    }

    /// The bytes of the line.
    pub fn as_str(&self) -> (r: &[u8])
        requires
            self.wf(),
        ensures
            r@ == self@,
    {
        match self {
            Line::Owned(v) => v.as_slice(),
            Line::Shared(blob, start, end) => {
                vstd::slice::slice_subrange(blob.as_slice(), *start, *end)
            },
        }
    }

    /// The length of the line in bytes.
    pub fn len(&self) -> (r: usize)
        requires
            self.wf(),
        ensures
            r == self@.len(),
    {
        match self {
            Line::Owned(v) => v.len(),
            Line::Shared(_, start, end) => *end - *start,
        }
    }

    /// Promotes a shared line to an owned one, copying its window once.
    /// The text is unchanged; afterwards the line owns its storage.
    pub fn make_mut(&mut self)
        requires
            old(self).wf(),
        ensures
            final(self)@ == old(self)@,
            *final(self) is Owned,
            final(self).wf(),
    {
        match self {
            Line::Owned(_) => {},
            Line::Shared(blob, start, end) => {
                let copied = vstd::slice::slice_to_vec(
                    vstd::slice::slice_subrange(blob.as_slice(), *start, *end),
                );
                *self = Line::Owned(copied);
            },
        }
    }

    /// Inserts bytes at byte position `at`.
    pub fn insert_bytes(&mut self, at: usize, data: &[u8])
        requires
            old(self).wf(),
            at <= old(self)@.len(),
        ensures
            final(self).wf(),
            final(self)@ == old(self)@.subrange(0, at as int) + data@ + old(self)@.subrange(
                at as int,
                old(self)@.len() as int,
            ),
    {
        self.make_mut();
        match self {
            Line::Owned(v) => {
                let mut tail = v.split_off(at);
                v.extend_from_slice(data);
                v.append(&mut tail);
                assert(v@ =~= old(self)@.subrange(0, at as int) + data@ + old(
                    self,
                )@.subrange(at as int, old(self)@.len() as int));
            },
            Line::Shared(_, _, _) => {
                proof {
                    assert(false);
                }
            },
        }
    }

    /// Removes the byte range `[from, to)`.
    pub fn remove_bytes(&mut self, from: usize, to: usize)
        requires
            old(self).wf(),
            from <= to <= old(self)@.len(),
        ensures
            final(self).wf(),
            final(self)@ == old(self)@.subrange(0, from as int) + old(self)@.subrange(
                to as int,
                old(self)@.len() as int,
            ),
    {
        self.make_mut();
        match self {
            Line::Owned(v) => {
                let mut tail = v.split_off(to);
                v.truncate(from);
                v.append(&mut tail);
                assert(v@ =~= old(self)@.subrange(0, from as int) + old(self)@.subrange(
                    to as int,
                    old(self)@.len() as int,
                ));
            },
            Line::Shared(_, _, _) => {
                proof {
                    assert(false);
                }
            },
        }
    }

    /// Appends the text of another line.
    pub fn push_line(&mut self, other: &Line)
        requires
            old(self).wf(),
            other.wf(),
        ensures
            final(self).wf(),
            final(self)@ == old(self)@ + other@,
    {
        self.make_mut();
        match self {
            Line::Owned(v) => {
                v.extend_from_slice(other.as_str());
                assert(v@ =~= old(self)@ + other@);
            },
            Line::Shared(_, _, _) => {
                proof {
                    assert(false);
                }
            },
        }
    }

    /// A copy of the byte range `[from, to)` as an owned vector.
    pub fn copy_range(&self, from: usize, to: usize) -> (r: Vec<u8>)
        requires
            self.wf(),
            from <= to <= self@.len(),
        ensures
            r@ == self@.subrange(from as int, to as int),
    {
        vstd::slice::slice_to_vec(vstd::slice::slice_subrange(self.as_str(), from, to))
    }
}

} // verus!
