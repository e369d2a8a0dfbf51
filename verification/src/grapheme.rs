//! Boundaries of user-perceived characters.

use crate::bytes;
use unicode_segmentation::GraphemeCursor;
use vstd::prelude::*;
use vstd::utf8::*;

verus! {

/// The boundary between extended grapheme clusters in front of a position, as found by
/// `GraphemeCursor::prev_boundary`.
pub uninterp spec fn boundary_before(text: Seq<char>, pos: usize) -> Option<usize>;

/// The boundary between extended grapheme clusters behind a position, as found by
/// `GraphemeCursor::next_boundary`.
pub uninterp spec fn boundary_after(text: Seq<char>, pos: usize) -> Option<usize>;

/// Calls `GraphemeCursor::prev_boundary` on the whole text.
///
/// At the start of the text there is no earlier boundary. Everywhere else there is one, between
/// two characters of the text or at its start, since with the whole text at hand no further context
/// is asked for. Where exactly it lies is given by [`boundary_before`].
#[verifier::external_body]
pub(crate) fn prev_boundary(text: &str, pos: usize) -> (r: Option<usize>)
    requires
        bytes::at_boundary(encode_utf8(text@), pos as int),
    ensures
        r == boundary_before(text@, pos),
        pos == 0 ==> r is None,
        pos > 0 ==> r is Some,
        r matches Some(p) ==> p < pos && bytes::at_boundary(encode_utf8(text@), p as int),
{
    GraphemeCursor::new(pos, text.len(), true).prev_boundary(text, 0).ok().flatten()
}

/// Calls `GraphemeCursor::next_boundary` on the whole text.
///
/// At the end of the text there is no later boundary. Everywhere else there is one, between two
/// characters of the text or at its end. Where exactly it lies is given by [`boundary_after`].
#[verifier::external_body]
pub(crate) fn next_boundary(text: &str, pos: usize) -> (r: Option<usize>)
    requires
        bytes::at_boundary(encode_utf8(text@), pos as int),
    ensures
        r == boundary_after(text@, pos),
        pos == encode_utf8(text@).len() ==> r is None,
        pos < encode_utf8(text@).len() ==> r is Some,
        r matches Some(p) ==> pos < p && bytes::at_boundary(encode_utf8(text@), p as int),
{
    GraphemeCursor::new(pos, text.len(), true).next_boundary(text, 0).ok().flatten()
}

} // verus!
