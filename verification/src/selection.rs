//! What a run selects: everything, or what a set of filters matches.

use vstd::prelude::*;
use crate::filter::FilterSet;
use crate::span::union_contains;

verus! {

/// The mode of selection, fixed once for a run. A set of no filters asks for
/// everything; it is no set that matches nothing.
#[derive(Debug)]
pub enum Selection {
    /// Every position is selected.
    All,
    /// The positions that at least one filter of the set matches.
    Matching(FilterSet),
}

impl Selection {
    /// The mode that `filters` asks for.
    pub open spec fn of(filters: FilterSet) -> Selection {
        if filters@.len() == 0 {
            Selection::All
        } else {
            Selection::Matching(filters)
        }
    }

    /// Whether `position` is selected.
    pub open spec fn spec_includes(self, position: nat) -> bool {
        match self {
            Selection::All => true,
            Selection::Matching(filters) => union_contains(filters@, position),
        }
    }

    /// The mode that `filters` asks for: everything where the set is empty.
    pub fn new(filters: FilterSet) -> (selection: Selection)
        ensures
            selection == Selection::of(filters),
    {
        if filters.is_empty() {
            Selection::All
        } else {
            Selection::Matching(filters)
        }
    }

    /// Whether every position is selected because no filter was given.
    pub fn is_all(&self) -> (all: bool)
        ensures
            all == (*self is All),
    {
        match self {
            Selection::All => true,
            Selection::Matching(_) => false,
        }
    }

    /// Whether `position` is selected.
    pub fn includes(&self, position: u64) -> (hit: bool)
        ensures
            hit == self.spec_includes(position as nat),
    {
        match self {
            Selection::All => true,
            Selection::Matching(filters) => filters.apply_wide(position),
        }
    }

    /// Beyond 32 bits the position no longer matters: no bound lies there.
    pub proof fn lemma_far_positions(self, near: nat, far: nat)
        requires
            near > u32::MAX,
            far > u32::MAX,
        ensures
            self.spec_includes(near) == self.spec_includes(far),
    {
        match self {
            Selection::All => {},
            Selection::Matching(filters) => {
                filters.lemma_fits_u32();
                if union_contains(filters@, near) {
                    let i = choose|i: int| 0 <= i < filters@.len() && (#[trigger] filters@[i]).contains(near);
                    assert(filters@[i].contains(far));
                }
                if union_contains(filters@, far) {
                    let i = choose|i: int| 0 <= i < filters@.len() && (#[trigger] filters@[i]).contains(far);
                    assert(filters@[i].contains(near));
                }
            },
        }
    }
}

/// The items of `items` whose positions are selected, in their order. The first
/// item has the position `before + 1`: `before` counts what came earlier.
pub open spec fn pick<T>(selection: Selection, before: nat, items: Seq<T>) -> Seq<T>
    decreases items.len(),
{
    if items.len() == 0 {
        Seq::empty()
    } else {
        let earlier = pick(selection, before, items.drop_last());
        if selection.spec_includes(before + items.len()) {
            earlier.push(items.last())
        } else {
            earlier
        }
    }
}

/// What one more item adds to a pick.
pub proof fn lemma_pick_push<T>(selection: Selection, before: nat, items: Seq<T>, item: T)
    ensures
        pick(selection, before, items.push(item)) == if selection.spec_includes(
            before + items.len() + 1,
        ) {
            pick(selection, before, items).push(item)
        } else {
            pick(selection, before, items)
        },
{
    assert(items.push(item).drop_last() =~= items);
}

/// Where everything is selected, the pick is all the items.
pub proof fn lemma_pick_all<T>(before: nat, items: Seq<T>)
    ensures
        pick(Selection::All, before, items) == items,
    decreases items.len(),
{
    if items.len() > 0 {
        lemma_pick_all(before, items.drop_last());
        assert(items.drop_last().push(items.last()) =~= items);
    }
}

} // verus!
