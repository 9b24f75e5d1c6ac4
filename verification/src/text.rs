//! Lines of a text and fields of a line.

use vstd::prelude::*;
use crate::scan::{is_char, is_prefix_len, lemma_prefix_len, prefix_len};

verus! {

/// Whether `c` is white space: one of the code points that Unicode gives the
/// property `White_Space`.
pub open spec fn is_whitespace(c: char) -> bool {
    ||| ('\u{9}' <= c && c <= '\u{d}')
    ||| c == ' '
    ||| c == '\u{85}'
    ||| c == '\u{a0}'
    ||| c == '\u{1680}'
    ||| ('\u{2000}' <= c && c <= '\u{200a}')
    ||| c == '\u{2028}'
    ||| c == '\u{2029}'
    ||| c == '\u{202f}'
    ||| c == '\u{205f}'
    ||| c == '\u{3000}'
}

/// The predicate `is_whitespace`, as a value.
pub open spec fn white() -> spec_fn(char) -> bool {
    |c: char| is_whitespace(c)
}

/// Whether `c` is white space.
pub fn whitespace(c: char) -> (white: bool)
    ensures
        white == is_whitespace(c),
{
    (c >= '\u{9}' && c <= '\u{d}') || c == ' ' || c == '\u{85}' || c == '\u{a0}' || c
        == '\u{1680}' || (c >= '\u{2000}' && c <= '\u{200a}') || c == '\u{2028}' || c
        == '\u{2029}' || c == '\u{202f}' || c == '\u{205f}' || c == '\u{3000}'
}

/// The index of the first white space in `chars[from..to]`, counted from the
/// start of `chars`, or `to` if there is none.
pub fn find_whitespace(chars: &Vec<char>, from: usize, to: usize) -> (at: usize)
    requires
        from <= to <= chars.len(),
    ensures
        from <= at <= to,
        at - from == prefix_len(chars@.subrange(from as int, to as int), white()),
{
    let ghost part = chars@.subrange(from as int, to as int);
    let mut at: usize = from;
    while at < to && !whitespace(chars[at])
        invariant
            from <= at <= to <= chars.len(),
            part == chars@.subrange(from as int, to as int),
            forall|j: int| 0 <= j < at - from ==> !white()(#[trigger] part[j]),
        decreases to - at,
    {
        at += 1;
    }
    proof {
        assert(is_prefix_len(part, white(), at - from));
        lemma_prefix_len(part, white());
    }
    at
}

/// The length of the first line of `s`: up to its first newline, which belongs
/// to the line, or all of `s` where it has none.
pub open spec fn line_len(s: Seq<char>) -> int {
    let newline = prefix_len(s, is_char('\n')) as int;
    if newline < s.len() {
        newline + 1
    } else {
        newline
    }
}

/// The lines of `s`, each with the newline that ends it. Only the last line
/// may lack one, and no line is empty.
pub open spec fn lines(s: Seq<char>) -> Seq<Seq<char>>
    decreases s.len(),
    via lines_decreases
{
    if s.len() == 0 {
        Seq::empty()
    } else {
        seq![s.take(line_len(s))] + lines(s.skip(line_len(s)))
    }
}

#[via_fn]
proof fn lines_decreases(s: Seq<char>) {
    lemma_prefix_len(s, is_char('\n'));
}

/// The fields of `s`: its longest runs of characters that are not white space,
/// in their order.
pub open spec fn fields(s: Seq<char>) -> Seq<Seq<char>>
    decreases s.len(),
    via fields_decreases
{
    if s.len() == 0 {
        Seq::empty()
    } else if is_whitespace(s[0]) {
        fields(s.drop_first())
    } else {
        seq![s.take(prefix_len(s, white()) as int)] + fields(s.skip(prefix_len(s, white()) as int))
    }
}

#[via_fn]
proof fn fields_decreases(s: Seq<char>) {
    lemma_prefix_len(s, white());
    if s.len() > 0 && !is_whitespace(s[0]) {
        assert(!white()(s[0]));
    }
}

/// The parts one after another.
pub open spec fn concat(parts: Seq<Seq<char>>) -> Seq<char>
    decreases parts.len(),
{
    if parts.len() == 0 {
        Seq::empty()
    } else {
        concat(parts.drop_last()) + parts.last()
    }
}

/// The parts one after another, with `separator` between each two.
pub open spec fn join(parts: Seq<Seq<char>>, separator: char) -> Seq<char>
    decreases parts.len(),
{
    if parts.len() == 0 {
        Seq::empty()
    } else if parts.len() == 1 {
        parts[0]
    } else {
        join(parts.drop_last(), separator) + seq![separator] + parts.last()
    }
}

/// What one more part adds to a concatenation.
pub proof fn lemma_concat_push(parts: Seq<Seq<char>>, part: Seq<char>)
    ensures
        concat(parts.push(part)) == concat(parts) + part,
{
    assert(parts.push(part).drop_last() =~= parts);
}

/// What one more part adds to a joined text.
pub proof fn lemma_join_push(parts: Seq<Seq<char>>, separator: char, part: Seq<char>)
    ensures
        join(parts.push(part), separator) == if parts.len() == 0 {
            part
        } else {
            join(parts, separator) + seq![separator] + part
        },
{
    assert(parts.push(part).drop_last() =~= parts);
}

/// A concatenation that starts with `first` starts with its characters.
pub proof fn lemma_concat_first(first: Seq<char>, rest: Seq<Seq<char>>)
    ensures
        concat(seq![first] + rest) == first + concat(rest),
    decreases rest.len(),
{
    let all = seq![first] + rest;
    if rest.len() == 0 {
        assert(all.drop_last() =~= Seq::<Seq<char>>::empty());
        assert(concat(all.drop_last()) =~= Seq::<char>::empty());
        assert(concat(all) =~= first);
        assert(first + concat(rest) =~= first);
    } else {
        assert(all.drop_last() =~= seq![first] + rest.drop_last());
        lemma_concat_first(first, rest.drop_last());
        assert(concat(all) =~= first + concat(rest));
    }
}

/// The lines of a text, one after another, are the text.
pub proof fn lemma_concat_lines(s: Seq<char>)
    ensures
        concat(lines(s)) == s,
    decreases s.len(),
{
    if s.len() > 0 {
        lemma_prefix_len(s, is_char('\n'));
        let first = s.take(line_len(s));
        let rest = s.skip(line_len(s));
        lemma_concat_lines(rest);
        lemma_concat_first(first, lines(rest));
        assert(first + rest =~= s);
    }
}

/// No line is empty; a newline ends a line and stands nowhere else in it.
pub proof fn lemma_lines_shape(s: Seq<char>, i: int)
    requires
        0 <= i < lines(s).len(),
    ensures
        lines(s)[i].len() >= 1,
        forall|j: int| 0 <= j < lines(s)[i].len() - 1 ==> lines(s)[i][j] != '\n',
        i < lines(s).len() - 1 ==> lines(s)[i].last() == '\n',
    decreases s.len(),
{
    lemma_prefix_len(s, is_char('\n'));
    let first = s.take(line_len(s));
    let rest = s.skip(line_len(s));
    if i == 0 {
        assert forall|j: int| 0 <= j < first.len() - 1 implies first[j] != '\n' by {
            assert(!is_char('\n')(s[j]));
        }
        if lines(s).len() > 1 {
            assert(rest.len() > 0) by {
                reveal_with_fuel(lines, 2);
            }
            assert(first.last() == s[line_len(s) - 1]);
        }
    } else {
        assert(lines(s)[i] == lines(rest)[i - 1]);
        lemma_lines_shape(rest, i - 1);
    }
}

/// No field is empty, and no field holds white space.
pub proof fn lemma_fields_shape(s: Seq<char>, i: int)
    requires
        0 <= i < fields(s).len(),
    ensures
        fields(s)[i].len() >= 1,
        forall|j: int| 0 <= j < fields(s)[i].len() ==> !is_whitespace(#[trigger] fields(s)[i][j]),
    decreases s.len(),
{
    if is_whitespace(s[0]) {
        lemma_fields_shape(s.drop_first(), i);
    } else {
        lemma_prefix_len(s, white());
        let n = prefix_len(s, white()) as int;
        assert(!white()(s[0]));
        if i == 0 {
            assert forall|j: int| 0 <= j < n implies !is_whitespace(#[trigger] s.take(n)[j]) by {
                assert(!white()(s[j]));
            }
        } else {
            assert(fields(s)[i] == fields(s.skip(n))[i - 1]);
            lemma_fields_shape(s.skip(n), i - 1);
        }
    }
}

/// Where the line that starts at `from` ends: just behind its newline, or at
/// the end of `chars` where no newline follows.
pub fn line_end(chars: &Vec<char>, from: usize) -> (to: usize)
    requires
        from < chars.len(),
    ensures
        from < to <= chars.len(),
        to - from == line_len(chars@.skip(from as int)),
{
    let len = chars.len();
    assert(chars@.skip(from as int) =~= chars@.subrange(from as int, len as int));
    let newline = crate::scan::find_char(chars, from, len, '\n');
    if newline < len {
        newline + 1
    } else {
        len
    }
}

/// One step of walking the lines of `text`: with the lines in `done` behind and
/// a line from `from` to `to` ahead, that line joins `done`.
pub proof fn lemma_lines_step(text: Seq<char>, from: int, to: int, done: Seq<Seq<char>>)
    requires
        0 <= from < to <= text.len(),
        to - from == line_len(text.skip(from)),
        lines(text) == done + lines(text.skip(from)),
    ensures
        lines(text) == done.push(text.subrange(from, to)) + lines(text.skip(to)),
{
    let rest = text.skip(from);
    let line = text.subrange(from, to);
    assert(rest.take(to - from) =~= line);
    assert(rest.skip(to - from) =~= text.skip(to));
    assert(done + (seq![line] + lines(text.skip(to))) =~= done.push(line) + lines(text.skip(to)));
}

/// The end of walking the lines of `text`: nothing is ahead, so `done` holds
/// them all.
pub proof fn lemma_lines_done(text: Seq<char>, done: Seq<Seq<char>>)
    requires
        lines(text) == done + lines(text.skip(text.len() as int)),
    ensures
        lines(text) == done,
{
    assert(text.skip(text.len() as int) =~= Seq::<char>::empty());
    assert(done + Seq::<Seq<char>>::empty() =~= done);
}

} // verus!
