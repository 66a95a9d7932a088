//! Sorting by the standard library.
//!
//! Nothing in this file is proved.  Each function states what the standard
//! library documents of its unstable sort and of the order of strings and
//! tuples.

use crate::text::{text_le, texts, texts_ascending};
use vstd::prelude::*;

verus! {

/// `a` comes before `b` or equals it, comparing the first texts, then the
/// second where the first are equal, and so on: the order of tuples.
pub open spec fn row_le(
    a: (Seq<char>, Seq<char>, Seq<char>, Seq<char>),
    b: (Seq<char>, Seq<char>, Seq<char>, Seq<char>),
) -> bool {
    if a.0 != b.0 {
        text_le(a.0, b.0)
    } else if a.1 != b.1 {
        text_le(a.1, b.1)
    } else if a.2 != b.2 {
        text_le(a.2, b.2)
    } else {
        text_le(a.3, b.3)
    }
}

/// What rows hold, as plain values.
pub open spec fn rows_view(rows: Seq<(String, String, String, String)>) -> Seq<
    (Seq<char>, Seq<char>, Seq<char>, Seq<char>),
> {
    Seq::new(rows.len(), |i: int| (rows[i].0@, rows[i].1@, rows[i].2@, rows[i].3@))
}

/// No row comes after a greater one.
pub open spec fn rows_ascending(rows: Seq<(Seq<char>, Seq<char>, Seq<char>, Seq<char>)>) -> bool {
    forall|i: int, j: int| 0 <= i < j < rows.len() ==> row_le(rows[i], rows[j])
}

/// `sort_unstable` on a vector of strings: the same strings, in ascending
/// order.
#[verifier::external_body]
pub(crate) fn sort_texts(items: &mut Vec<String>)
    ensures
        texts(final(items)@).to_multiset() == texts(old(items)@).to_multiset(),
        texts_ascending(texts(final(items)@)),
{
    items.sort_unstable()
}

/// `sort_unstable` on a vector of rows of four strings: the same rows, in
/// ascending order.
#[verifier::external_body]
pub(crate) fn sort_rows(rows: &mut Vec<(String, String, String, String)>)
    ensures
        rows_view(final(rows)@).to_multiset() == rows_view(old(rows)@).to_multiset(),
        rows_ascending(rows_view(final(rows)@)),
{
    rows.sort_unstable()
}

} // verus!
