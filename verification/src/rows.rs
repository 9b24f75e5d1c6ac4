//! Selecting rows: the lines of a text, counted from 1.

use vstd::prelude::*;
use crate::chars::{push_range, to_chars};
use crate::filter::FilterSet;
use crate::selection::{lemma_pick_all, lemma_pick_push, pick, Selection};
use crate::text::{
    concat, lemma_concat_lines, lemma_concat_push, lemma_lines_done, lemma_lines_step, line_end,
    lines,
};

verus! {

/// A count of rows that cannot overflow. The number it keeps stops at
/// `u64::MAX`, while the exact count goes on.
struct RowCount {
    capped: u64,
    exact: Ghost<nat>,
}

impl RowCount {
    #[verifier::type_invariant]
    spec fn capped_at_max(self) -> bool {
        self.capped == if self.exact@ <= u64::MAX {
            self.exact@
        } else {
            u64::MAX as nat
        }
    }
}

/// Selects rows of an input that comes in one or more pieces, counting the rows
/// across the pieces.
pub struct RowSlicer {
    selection: Selection,
    seen: RowCount,
}

/// The selected lines of `text`, one after another, where `before` lines came
/// earlier.
pub open spec fn rows_of(selection: Selection, before: nat, text: Seq<char>) -> Seq<char> {
    concat(pick(selection, before, lines(text)))
}

impl RowSlicer {
    /// What this slicer selects.
    pub closed spec fn selection(&self) -> Selection {
        self.selection
    }

    /// How many rows this slicer has taken so far.
    pub closed spec fn consumed(&self) -> nat {
        self.seen.exact@
    }

    /// A slicer at the start of an input, which selects what `filters` asks for.
    pub fn new(filters: FilterSet) -> (slicer: RowSlicer)
        ensures
            slicer.selection() == Selection::of(filters),
            slicer.consumed() == 0,
    {
        RowSlicer { selection: Selection::new(filters), seen: RowCount { capped: 0, exact: Ghost(0) } }
    }

    /// Takes the next row of the input and says whether it is selected.
    pub fn next_row(&mut self) -> (kept: bool)
        ensures
            kept == old(self).selection().spec_includes(old(self).consumed() + 1),
            final(self).consumed() == old(self).consumed() + 1,
            final(self).selection() == old(self).selection(),
    {
        proof {
            use_type_invariant(&self.seen);
        }
        let ghost position = self.seen.exact@ + 1;
        let capped = if self.seen.capped < u64::MAX {
            self.seen.capped + 1
        } else {
            u64::MAX
        };
        let kept = self.selection.includes(capped);
        proof {
            if position > u64::MAX {
                self.selection.lemma_far_positions(capped as nat, position);
            }
        }
        self.seen = RowCount { capped, exact: Ghost(position) };
        kept
    }

    /// The selected lines of `input`, unchanged and in their order. The rows
    /// are counted on from those of earlier pieces.
    pub fn slice(&mut self, input: &str) -> (output: String)
        ensures
            output@ == rows_of(old(self).selection(), old(self).consumed(), input@),
            final(self).consumed() == old(self).consumed() + lines(input@).len(),
            final(self).selection() == old(self).selection(),
    {
        let chars = to_chars(input);
        let len = chars.len();
        let ghost text = chars@;
        let ghost before = self.consumed();
        let ghost mut done: Seq<Seq<char>> = Seq::empty();
        let mut output = String::new();
        let mut from: usize = 0;
        proof {
            assert(text.skip(0) =~= text);
            assert(Seq::<Seq<char>>::empty() + lines(text) =~= lines(text));
        }
        while from < len
            invariant
                from <= len == chars.len(),
                text == chars@,
                before == old(self).consumed(),
                lines(text) == done + lines(text.skip(from as int)),
                self.selection() == old(self).selection(),
                self.consumed() == before + done.len(),
                output@ == concat(pick(self.selection(), before, done)),
            decreases len - from,
        {
            let to = line_end(&chars, from);
            let ghost line = text.subrange(from as int, to as int);
            proof {
                lemma_lines_step(text, from as int, to as int, done);
                lemma_pick_push(self.selection(), before, done, line);
                lemma_concat_push(pick(self.selection(), before, done), line);
                done = done.push(line);
            }
            if self.next_row() {
                push_range(&mut output, &chars, from, to);
            }
            from = to;
        }
        proof {
            lemma_lines_done(text, done);
        }
        output
    }
}

/// Where no filter was given, every row is selected: the output is the input.
pub proof fn lemma_rows_of_all(before: nat, text: Seq<char>)
    ensures
        rows_of(Selection::All, before, text) == text,
{
    lemma_pick_all(before, lines(text));
    lemma_concat_lines(text);
}

} // verus!
