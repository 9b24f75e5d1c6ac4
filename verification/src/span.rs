//! Ranges of positions as mathematical values.

use vstd::prelude::*;

verus! {

/// An inclusive range over positions. A bound that is absent leaves the range
/// open on that side.
pub struct Span {
    pub lower: Option<nat>,
    pub upper: Option<nat>,
}

impl Span {
    /// Whether `position` is at or above the lower bound and at or below the
    /// upper one, as far as each is present.
    pub open spec fn contains(self, position: nat) -> bool {
        &&& (self.lower matches Some(lo) ==> lo <= position)
        &&& (self.upper matches Some(hi) ==> position <= hi)
    }

    /// Bounds are positions, so at least 1, and a range with both bounds is
    /// not inverted.
    pub open spec fn wf(self) -> bool {
        &&& (self.lower matches Some(lo) ==> lo >= 1)
        &&& (self.upper matches Some(hi) ==> hi >= 1)
        &&& (self.lower matches Some(lo) ==> (self.upper matches Some(hi) ==> lo <= hi))
    }

    /// The range with the given bounds.
    pub open spec fn of(lower: Option<u32>, upper: Option<u32>) -> Span {
        Span {
            lower: match lower {
                Some(lo) => Some(lo as nat),
                None => None,
            },
            upper: match upper {
                Some(hi) => Some(hi as nat),
                None => None,
            },
        }
    }

    /// Whether each bound that is present fits in 32 bits.
    pub open spec fn fits_u32(self) -> bool {
        &&& (self.lower matches Some(lo) ==> lo <= u32::MAX)
        &&& (self.upper matches Some(hi) ==> hi <= u32::MAX)
    }
}

/// Whether at least one of `spans` contains `position`.
pub open spec fn union_contains(spans: Seq<Span>, position: nat) -> bool {
    exists|i: int| 0 <= i < spans.len() && (#[trigger] spans[i]).contains(position)
}

/// A union of two ranges contains a position exactly when one of the two
/// does. Ranges that overlap are no exception.
pub proof fn lemma_union_of_two(first: Span, second: Span, position: nat)
    ensures
        union_contains(seq![first, second], position) <==> first.contains(position)
            || second.contains(position),
{
    let both = seq![first, second];
    if first.contains(position) {
        assert(both[0].contains(position));
    }
    if second.contains(position) {
        assert(both[1].contains(position));
    }
}

/// Joining two unions gives the union of all their ranges: a position is in it
/// exactly when it is in one of the two.
pub proof fn lemma_union_concat(head: Seq<Span>, tail: Seq<Span>, position: nat)
    ensures
        union_contains(head + tail, position) <==> union_contains(head, position)
            || union_contains(tail, position),
{
    let all = head + tail;
    if union_contains(head, position) {
        let i = choose|i: int| 0 <= i < head.len() && (#[trigger] head[i]).contains(position);
        assert(all[i].contains(position));
    }
    if union_contains(tail, position) {
        let i = choose|i: int| 0 <= i < tail.len() && (#[trigger] tail[i]).contains(position);
        assert(all[head.len() + i].contains(position));
    }
    if union_contains(all, position) {
        let i = choose|i: int| 0 <= i < all.len() && (#[trigger] all[i]).contains(position);
        if i < head.len() {
            assert(head[i].contains(position));
        } else {
            assert(tail[i - head.len()].contains(position));
        }
    }
}

/// A range that occurs a second time adds nothing to a union.
pub proof fn lemma_union_repeat(spans: Seq<Span>, again: int, position: nat)
    requires
        0 <= again < spans.len(),
    ensures
        union_contains(spans.push(spans[again]), position) <==> union_contains(spans, position),
{
    let more = spans.push(spans[again]);
    if union_contains(spans, position) {
        let i = choose|i: int| 0 <= i < spans.len() && (#[trigger] spans[i]).contains(position);
        assert(more[i].contains(position));
    }
    if union_contains(more, position) {
        let i = choose|i: int| 0 <= i < more.len() && (#[trigger] more[i]).contains(position);
        if i < spans.len() {
            assert(spans[i].contains(position));
        } else {
            assert(spans[again].contains(position));
        }
    }
}

/// The union of no ranges contains no position.
pub proof fn lemma_union_of_none(position: nat)
    ensures
        !union_contains(Seq::<Span>::empty(), position),
{
}

} // verus!
