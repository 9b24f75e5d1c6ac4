//! Selecting columns: the fields of each line, counted from 1.

use vstd::prelude::*;
use crate::chars::{push_range, to_chars};
use crate::filter::FilterSet;
use crate::scan::lemma_prefix_len;
use crate::selection::{lemma_pick_push, pick, Selection};
use crate::text::{
    concat, fields, find_whitespace, join, lemma_concat_lines, lemma_concat_push, lemma_join_push,
    lemma_lines_done, lemma_lines_step, line_end, lines, white, whitespace,
};

verus! {

/// Selects fields of the lines of an input.
pub struct ColSlicer {
    selection: Selection,
}

/// The selected fields of `line`, with one space between each two.
pub open spec fn chosen_fields(selection: Selection, line: Seq<char>) -> Seq<char> {
    join(pick(selection, 0, fields(line)), ' ')
}

/// What is written for `line`. Where everything is selected that is the line
/// as it stands, with whatever ends it; else its selected fields and a newline.
pub open spec fn columns_of_line(selection: Selection, line: Seq<char>) -> Seq<char> {
    match selection {
        Selection::All => line,
        Selection::Matching(_) => chosen_fields(selection, line) + seq!['\n'],
    }
}

/// What is written for each of `rows`, in their order.
pub open spec fn columns_of_lines(selection: Selection, rows: Seq<Seq<char>>) -> Seq<Seq<char>> {
    Seq::new(rows.len(), |i: int| columns_of_line(selection, rows[i]))
}

/// What is written for `text`: for each of its lines what `columns_of_line`
/// gives, one after another.
pub open spec fn columns_of(selection: Selection, text: Seq<char>) -> Seq<char> {
    concat(columns_of_lines(selection, lines(text)))
}

/// Appends the selected fields of `chars[from..to]` to `out`, with one space
/// between each two.
fn push_fields(selection: &Selection, out: &mut String, chars: &Vec<char>, from: usize, to: usize)
    requires
        from <= to <= chars.len(),
    ensures
        final(out)@ == old(out)@ + chosen_fields(
            *selection,
            chars@.subrange(from as int, to as int),
        ),
{
    let ghost line = chars@.subrange(from as int, to as int);
    let ghost mut done: Seq<Seq<char>> = Seq::empty();
    let mut count: usize = 0;
    let mut wrote = false;
    let mut at: usize = from;
    proof {
        assert(line.skip(0) =~= line);
        assert(Seq::<Seq<char>>::empty() + fields(line) =~= fields(line));
        assert(out@ + Seq::<char>::empty() =~= out@);
    }
    while at < to
        invariant
            from <= at <= to <= chars.len(),
            line == chars@.subrange(from as int, to as int),
            fields(line) == done + fields(line.skip(at - from)),
            count == done.len(),
            count <= at - from,
            wrote == (pick(*selection, 0, done).len() > 0),
            out@ == old(out)@ + join(pick(*selection, 0, done), ' '),
        decreases to - at,
    {
        let ghost rest = line.skip(at - from);
        assert(rest[0] == chars@[at as int]);
        if whitespace(chars[at]) {
            assert(rest.drop_first() =~= line.skip(at + 1 - from));
            at += 1;
        } else {
            let end = find_whitespace(chars, at, to);
            let ghost field = chars@.subrange(at as int, end as int);
            let ghost picked = pick(*selection, 0, done);
            proof {
                assert(rest =~= chars@.subrange(at as int, to as int));
                lemma_prefix_len(rest, white());
                assert(!white()(rest[0]));
                assert(rest.take(end - at) =~= field);
                assert(rest.skip(end - at) =~= line.skip(end - from));
                assert(done + (seq![field] + fields(line.skip(end - from))) =~= done.push(field)
                    + fields(line.skip(end - from)));
                lemma_pick_push(*selection, 0, done, field);
                lemma_join_push(picked, ' ', field);
            }
            count += 1;
            if selection.includes(count as u64) {
                if wrote {
                    out.push(' ');
                }
                push_range(out, chars, at, end);
                wrote = true;
                assert(out@ =~= old(out)@ + join(picked.push(field), ' '));
            }
            proof {
                done = done.push(field);
            }
            at = end;
        }
    }
    proof {
        assert(line.skip(to - from) =~= Seq::<char>::empty());
        assert(done + Seq::<Seq<char>>::empty() =~= done);
    }
}

/// Appends to `out` what is written for the line `chars[from..to]`.
fn push_columns(selection: &Selection, out: &mut String, chars: &Vec<char>, from: usize, to: usize)
    requires
        from <= to <= chars.len(),
    ensures
        final(out)@ == old(out)@ + columns_of_line(
            *selection,
            chars@.subrange(from as int, to as int),
        ),
{
    match selection {
        Selection::All => {
            push_range(out, chars, from, to);
        },
        Selection::Matching(_) => {
            push_fields(selection, out, chars, from, to);
            out.push('\n');
            assert(out@ =~= old(out)@ + (chosen_fields(
                *selection,
                chars@.subrange(from as int, to as int),
            ) + seq!['\n']));
        },
    }
}

impl ColSlicer {
    /// What this slicer selects.
    pub closed spec fn selection(&self) -> Selection {
        self.selection
    }

    /// A slicer that selects what `filters` asks for.
    pub fn new(filters: FilterSet) -> (slicer: ColSlicer)
        ensures
            slicer.selection() == Selection::of(filters),
    {
        ColSlicer { selection: Selection::new(filters) }
    }

    /// What is written for one line: its selected fields with one space between
    /// each two, and a newline. Where no filter was given, the line as it is.
    pub fn slice_line(&self, line: &str) -> (output: String)
        ensures
            output@ == columns_of_line(self.selection(), line@),
    {
        let chars = to_chars(line);
        let mut output = String::new();
        push_columns(&self.selection, &mut output, &chars, 0, chars.len());
        proof {
            assert(chars@.subrange(0, chars.len() as int) =~= line@);
            assert(Seq::<char>::empty() + columns_of_line(self.selection(), line@)
                =~= columns_of_line(self.selection(), line@));
        }
        output
    }

    /// What is written for `input`, line by line.
    pub fn slice(&self, input: &str) -> (output: String)
        ensures
            output@ == columns_of(self.selection(), input@),
    {
        let chars = to_chars(input);
        let len = chars.len();
        let ghost text = chars@;
        let ghost mut done: Seq<Seq<char>> = Seq::empty();
        let mut output = String::new();
        let mut from: usize = 0;
        proof {
            assert(text.skip(0) =~= text);
            assert(Seq::<Seq<char>>::empty() + lines(text) =~= lines(text));
            assert(columns_of_lines(self.selection(), done) =~= Seq::<Seq<char>>::empty());
        }
        while from < len
            invariant
                from <= len == chars.len(),
                text == chars@,
                lines(text) == done + lines(text.skip(from as int)),
                output@ == concat(columns_of_lines(self.selection(), done)),
            decreases len - from,
        {
            let to = line_end(&chars, from);
            let ghost line = text.subrange(from as int, to as int);
            proof {
                lemma_lines_step(text, from as int, to as int, done);
                assert(columns_of_lines(self.selection(), done.push(line)) =~= columns_of_lines(
                    self.selection(),
                    done,
                ).push(columns_of_line(self.selection(), line)));
                lemma_concat_push(
                    columns_of_lines(self.selection(), done),
                    columns_of_line(self.selection(), line),
                );
                done = done.push(line);
            }
            push_columns(&self.selection, &mut output, &chars, from, to);
            from = to;
        }
        proof {
            lemma_lines_done(text, done);
        }
        output
    }
}

/// Where no filter was given, every line is written as it is: the output is
/// the input.
pub proof fn lemma_columns_of_all(text: Seq<char>)
    ensures
        columns_of(Selection::All, text) == text,
{
    assert(columns_of_lines(Selection::All, lines(text)) =~= lines(text));
    lemma_concat_lines(text);
}

} // verus!
