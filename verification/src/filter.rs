//! Filters and sets of filters.

use std::str::FromStr;
use vstd::prelude::*;
use crate::chars::to_chars;
use crate::error::{InvalidFilter, InvalidFilterKind};
use crate::expr::{lemma_parse_spec_wf, parse_expr, parse_spec};
use crate::span::{lemma_union_of_two, union_contains, Span};

verus! {

/// One inclusive range over 1-based positions, made from a filter expression.
#[derive(Clone, Copy, Debug, PartialEq, Eq, Structural)]
pub struct Filter {
    lower: Option<u32>,
    upper: Option<u32>,
}

impl View for Filter {
    type V = Span;

    closed spec fn view(&self) -> Span {
        Span::of(self.lower, self.upper)
    }
}

impl Filter {
    #[verifier::type_invariant]
    spec fn well_formed(self) -> bool {
        self@.wf()
    }

    /// The lower bound, if the range has one.
    pub fn lower(&self) -> (bound: Option<u32>)
        ensures
            self@.wf(),
            match bound {
                Some(lo) => self@.lower == Some(lo as nat),
                None => self@.lower is None,
            },
    {
        proof {
            use_type_invariant(self);
        }
        self.lower
    }

    /// The upper bound, if the range has one.
    pub fn upper(&self) -> (bound: Option<u32>)
        ensures
            self@.wf(),
            match bound {
                Some(hi) => self@.upper == Some(hi as nat),
                None => self@.upper is None,
            },
    {
        proof {
            use_type_invariant(self);
        }
        self.upper
    }

    /// Whether `position` lies in the range.
    pub fn matches(&self, position: u64) -> (hit: bool)
        ensures
            hit == self@.contains(position as nat),
    {
        let above = match self.lower {
            Some(lo) => lo as u64 <= position,
            None => true,
        };
        let below = match self.upper {
            Some(hi) => position <= hi as u64,
            None => true,
        };
        above && below
    }

    /// The bounds of a filter fit in 32 bits.
    pub proof fn lemma_fits_u32(self)
        ensures
            self@.fits_u32(),
    {
    }
}

impl FromStr for Filter {
    type Err = InvalidFilter;

    /// Reads a filter expression. The error carries the whole expression.
    fn from_str(s: &str) -> (parsed: Result<Filter, InvalidFilter>)
        ensures
            match parse_spec(s@) {
                Ok(span) => parsed matches Ok(filter) && filter@ == span && span.wf(),
                Err(kind) => parsed matches Err(e) && e.kind == kind && e.token@ == s@,
            },
    {
        let chars = to_chars(s);
        proof {
            lemma_parse_spec_wf(s@);
        }
        match parse_expr(&chars) {
            Ok((lower, upper)) => Ok(Filter { lower, upper }),
            Err(kind) => Err(InvalidFilter { kind, token: s.to_owned() }),
        }
    }
}

/// The ranges of `filters`, in the same order.
pub open spec fn spans_of(filters: Seq<Filter>) -> Seq<Span> {
    Seq::new(filters.len(), |i: int| filters[i]@)
}

/// The union of zero or more filters, kept in the order given.
#[derive(Debug)]
pub struct FilterSet {
    filters: Vec<Filter>,
}

impl View for FilterSet {
    type V = Seq<Span>;

    closed spec fn view(&self) -> Seq<Span> {
        spans_of(self.filters@)
    }
}

impl FilterSet {
    /// The set of `filters`, as they are: nothing is merged, sorted or dropped.
    pub fn new(filters: Vec<Filter>) -> (set: FilterSet)
        ensures
            set@ == spans_of(filters@),
    {
        FilterSet { filters }
    }

    /// Reads every expression, in order, and makes the set of what they
    /// write. Where one is invalid, the first such one is reported and no set
    /// is made.
    pub fn parse(expressions: &Vec<String>) -> (parsed: Result<FilterSet, InvalidFilter>)
        ensures
            match parsed {
                Ok(set) => {
                    &&& set@.len() == expressions.len()
                    &&& forall|i: int|
                        0 <= i < expressions.len() ==> parse_spec(#[trigger] expressions[i]@) == Ok::<
                            Span,
                            InvalidFilterKind,
                        >(set@[i])
                },
                Err(e) => exists|first: int|
                    {
                        &&& 0 <= first < expressions.len()
                        &&& forall|i: int|
                            0 <= i < first ==> parse_spec(#[trigger] expressions[i]@) is Ok
                        &&& parse_spec(#[trigger] expressions[first]@) == Err::<
                            Span,
                            InvalidFilterKind,
                        >(e.kind)
                        &&& e.token@ == expressions[first]@
                    },
            },
    {
        let mut filters: Vec<Filter> = Vec::new();
        let mut i: usize = 0;
        while i < expressions.len()
            invariant
                i <= expressions.len(),
                filters.len() == i,
                forall|j: int|
                    0 <= j < i ==> parse_spec(#[trigger] expressions[j]@) == Ok::<
                        Span,
                        InvalidFilterKind,
                    >(filters[j]@),
            decreases expressions.len() - i,
        {
            match Filter::from_str(expressions[i].as_str()) {
                Ok(filter) => {
                    filters.push(filter);
                },
                Err(e) => {
                    return Err(e);
                },
            }
            i += 1;
        }
        Ok(FilterSet::new(filters))
    }

    /// Whether the set was made from no filters at all.
    pub fn is_empty(&self) -> (empty: bool)
        ensures
            empty == (self@.len() == 0),
    {
        self.filters.len() == 0
    }

    /// Whether at least one filter of the set matches `position`.
    pub fn apply(&self, position: u32) -> (hit: bool)
        ensures
            hit == union_contains(self@, position as nat),
    {
        self.apply_wide(position as u64)
    }

    /// `apply` for positions beyond 32 bits, as a long input may have them.
    pub fn apply_wide(&self, position: u64) -> (hit: bool)
        ensures
            hit == union_contains(self@, position as nat),
    {
        let mut i: usize = 0;
        while i < self.filters.len()
            invariant
                i <= self.filters.len(),
                forall|j: int| 0 <= j < i ==> !(#[trigger] self@[j]).contains(position as nat),
            decreases self.filters.len() - i,
        {
            if self.filters[i].matches(position) {
                assert(self@[i as int].contains(position as nat));
                return true;
            }
            i += 1;
        }
        false
    }

    /// The bounds of every filter of a set fit in 32 bits.
    pub proof fn lemma_fits_u32(self)
        ensures
            forall|i: int| 0 <= i < self@.len() ==> (#[trigger] self@[i]).fits_u32(),
    {
    }
}

/// A set made from two filters matches a position exactly when the first
/// filter or the second one does.
pub proof fn lemma_set_of_two(first: Filter, second: Filter, position: nat)
    ensures
        union_contains(spans_of(seq![first, second]), position) <==> first@.contains(position)
            || second@.contains(position),
{
    assert(spans_of(seq![first, second]) =~= seq![first@, second@]);
    lemma_union_of_two(first@, second@, position);
}

/// A set is empty exactly when it was made from no filters. Such a set matches
/// no position: that it stands for everything is for the caller to test.
pub proof fn lemma_set_of_none(filters: Seq<Filter>, position: nat)
    ensures
        spans_of(filters).len() == 0 <==> filters.len() == 0,
        filters.len() == 0 ==> !union_contains(spans_of(filters), position),
{
}

} // verus!
