//! Formats plain text for a fixed-width display surface: a page of a
//! Minecraft written book, 113 pixel units wide and 14 lines tall.
//!
//! Text is measured with a per-glyph pixel-width table rather than by
//! character count. The pipeline is: raw text -> word wrap ([`wrap`]) ->
//! display lines -> pagination ([`page`]) -> pages -> serialization
//! ([`book`]). Every stage is a pure function over in-memory sequences,
//! with its behaviour stated in its contract.

pub mod book;
pub mod glyph;
pub mod page;
pub mod wrap;

use vstd::prelude::*;

verus! {

/// The character sequences of a vector of strings, in order.
pub open spec fn views(v: Seq<String>) -> Seq<Seq<char>> {
    v.map_values(|s: String| s@)
}

pub proof fn lemma_views_push(v: Seq<String>, s: String)
    ensures
        views(v.push(s)) == views(v).push(s@),
{
    assert(views(v.push(s)) =~= views(v).push(s@));
}

} // verus!
