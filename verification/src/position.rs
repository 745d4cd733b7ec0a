//! Index ranges and position lists: the output of the selector parser and the
//! input of every extractor.

use vstd::prelude::*;

verus! {

/// A half-open interval `[start, end)` of zero-based positions.
///
/// A well-formed range (the only kind the parser produces) is non-empty:
/// `start < end`. The extractors accept any range; an empty or reversed one
/// selects nothing.
#[derive(Clone, Copy, Debug, PartialEq, Eq, Structural)]
pub struct PosRange {
    pub start: usize,
    pub end: usize,
}

impl PosRange {
    /// A well-formed range is non-empty.
    pub open spec fn wf(self) -> bool {
        self.start < self.end
    }
}

/// The number of positions of `[r.start, r.end)` that exist in a sequence of
/// length `len`: the range is clipped to the end of the sequence.
pub open spec fn clipped_width(len: nat, r: PosRange) -> nat {
    let hi: nat = if r.end as nat <= len {
        r.end as nat
    } else {
        len
    };
    if r.start as nat <= hi {
        (hi - r.start as nat) as nat
    } else {
        0
    }
}

/// The elements of `s` at the positions of one range, in position order;
/// positions past the end of `s` contribute nothing.
pub open spec fn select_range<T>(s: Seq<T>, r: PosRange) -> Seq<T> {
    Seq::new(clipped_width(s.len(), r), |i: int| s[r.start + i])
}

/// The concatenation, in position-list order, of the elements selected by
/// each range of `pos`.
pub open spec fn select_all<T>(s: Seq<T>, pos: Seq<PosRange>) -> Seq<T>
    decreases pos.len(),
{
    if pos.len() == 0 {
        Seq::empty()
    } else {
        select_all(s, pos.drop_last()) + select_range(s, pos.last())
    }
}

/// Identity law: selecting the single full range `[0, L)` of a sequence of
/// length `L` returns the sequence unchanged. Through the extractors'
/// contracts this covers every input unit: a line of characters, a line of
/// bytes, or the fields of a record.
pub proof fn lemma_select_full_identity<T>(s: Seq<T>)
    requires
        s.len() <= usize::MAX,
    ensures
        select_all(s, seq![PosRange { start: 0, end: s.len() as usize }]) == s,
{
    let pos = seq![PosRange { start: 0, end: s.len() as usize }];
    assert(pos.drop_last() =~= Seq::<PosRange>::empty());
    assert(select_range(s, pos.last()) =~= s);
    assert(select_all(s, pos.drop_last()) + select_range(s, pos.last()) =~= s);
}

/// Determinism law: re-applying a position list to its own output is defined
/// for every sequence and every position list — selection is total — and two
/// applications over equal inputs give equal results, so the re-application
/// is pinned by the first output alone.
pub proof fn lemma_select_reapply_deterministic<T>(s1: Seq<T>, s2: Seq<T>, pos: Seq<PosRange>)
    requires
        s1 == s2,
    ensures
        select_all(select_all(s1, pos), pos) == select_all(select_all(s2, pos), pos),
{
}

} // verus!
