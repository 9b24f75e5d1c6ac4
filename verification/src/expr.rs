//! The grammar of filter expressions.
//!
//! An expression is a numeral `N` (that one position), or two sides around a
//! single colon, `N:M`, where either side may be empty and then leaves the range
//! open on that side. A numeral is a run of decimal digits, which one plus sign
//! may precede, and stands for a bound when its value is between 1 and
//! `u32::MAX`.

use vstd::prelude::*;
use crate::error::InvalidFilterKind;
use crate::scan::{find_char, is_char, is_prefix_len, lemma_prefix_len, prefix_len};
use crate::span::Span;

verus! {

/// Whether `c` is one of the ten decimal digits.
pub open spec fn is_digit(c: char) -> bool {
    '0' <= c && c <= '9'
}

/// The number that the digit `c` stands for.
pub open spec fn digit_value(c: char) -> nat {
    (c as u32 - '0' as u32) as nat
}

/// Whether `s` consists of decimal digits only.
pub open spec fn all_digits(s: Seq<char>) -> bool {
    forall|i: int| 0 <= i < s.len() ==> is_digit(#[trigger] s[i])
}

/// The number that the digits `s` write in base ten; 0 for no digits.
pub open spec fn decimal_value(s: Seq<char>) -> nat
    decreases s.len(),
{
    if s.len() == 0 {
        0
    } else {
        10 * decimal_value(s.drop_last()) + digit_value(s.last())
    }
}

/// `s` without the plus sign that may lead it.
pub open spec fn unsigned_part(s: Seq<char>) -> Seq<char> {
    if s.len() > 0 && s[0] == '+' {
        s.drop_first()
    } else {
        s
    }
}

/// Whether `s` is a numeral: at least one digit, and nothing but digits, after
/// an optional plus sign.
pub open spec fn is_numeral(s: Seq<char>) -> bool {
    unsigned_part(s).len() > 0 && all_digits(unsigned_part(s))
}

/// The value of the numeral `s`.
pub open spec fn numeral_value(s: Seq<char>) -> nat {
    decimal_value(unsigned_part(s))
}

/// The bound that `s` writes: the value of a numeral that is at least 1 and
/// fits in 32 bits. Anything else writes no bound.
pub open spec fn bound_of(s: Seq<char>) -> Option<nat> {
    if is_numeral(s) && 1 <= numeral_value(s) <= u32::MAX {
        Some(numeral_value(s))
    } else {
        None
    }
}

/// One side of a range: nothing for an open side, else a bound. `None` where
/// the side is neither.
pub open spec fn side_of(s: Seq<char>) -> Option<Option<nat>> {
    if s.len() == 0 {
        Some(None)
    } else {
        match bound_of(s) {
            Some(n) => Some(Some(n)),
            None => None,
        }
    }
}

/// The range that the two sides of a single colon write.
pub open spec fn range_of(left: Seq<char>, right: Seq<char>) -> Result<Span, InvalidFilterKind> {
    match (side_of(left), side_of(right)) {
        (Some(lower), Some(upper)) => {
            if lower is Some && upper is Some && lower->0 > upper->0 {
                Err(InvalidFilterKind::Range)
            } else {
                Ok(Span { lower, upper })
            }
        },
        _ => Err(InvalidFilterKind::Parse),
    }
}

/// What the expression `s` means: the range it writes, or why it writes none.
pub open spec fn parse_spec(s: Seq<char>) -> Result<Span, InvalidFilterKind> {
    let colon = prefix_len(s, is_char(':')) as int;
    if colon == s.len() {
        match bound_of(s) {
            Some(n) => Ok(Span { lower: Some(n), upper: Some(n) }),
            None => Err(InvalidFilterKind::Parse),
        }
    } else {
        let left = s.take(colon);
        let right = s.skip(colon + 1);
        if prefix_len(right, is_char(':')) < right.len() {
            Err(InvalidFilterKind::Parse)
        } else {
            range_of(left, right)
        }
    }
}

/// Appending a digit multiplies the value by ten and adds the digit.
pub proof fn lemma_decimal_value_push(s: Seq<char>, c: char)
    ensures
        decimal_value(s.push(c)) == 10 * decimal_value(s) + digit_value(c),
{
    assert(s.push(c).drop_last() =~= s);
}

/// The digits read so far never write more than all of them do.
pub proof fn lemma_decimal_value_prefix(s: Seq<char>, k: int)
    requires
        0 <= k <= s.len(),
    ensures
        decimal_value(s.take(k)) <= decimal_value(s),
    decreases s.len() - k,
{
    if k == s.len() {
        assert(s.take(k) =~= s);
    } else {
        lemma_decimal_value_prefix(s.drop_last(), k);
        assert(s.drop_last().take(k) =~= s.take(k));
    }
}

/// Reads `chars[from..to]` as a bound.
pub fn parse_bound(chars: &Vec<char>, from: usize, to: usize) -> (bound: Option<u32>)
    requires
        from <= to <= chars.len(),
    ensures
        match bound {
            Some(n) => bound_of(chars@.subrange(from as int, to as int)) == Some(n as nat),
            None => bound_of(chars@.subrange(from as int, to as int)) is None,
        },
{
    let ghost token = chars@.subrange(from as int, to as int);
    let mut i: usize = from;
    if i < to && chars[i] == '+' {
        i += 1;
    }
    let start: usize = i;
    let ghost digits = chars@.subrange(start as int, to as int);
    assert(digits =~= unsigned_part(token));
    if start == to {
        return None;
    }
    let mut value: u32 = 0;
    while i < to
        invariant
            from <= start <= i <= to <= chars.len(),
            token == chars@.subrange(from as int, to as int),
            digits == chars@.subrange(start as int, to as int),
            digits == unsigned_part(token),
            all_digits(digits.take(i - start)),
            value == decimal_value(digits.take(i - start)),
        decreases to - i,
    {
        let c = chars[i];
        if !(c >= '0' && c <= '9') {
            assert(digits[i - start] == c);
            return None;
        }
        let digit: u32 = c as u32 - '0' as u32;
        proof {
            assert(digits.take(i - start + 1) =~= digits.take(i - start).push(c));
            lemma_decimal_value_push(digits.take(i - start), c);
            lemma_decimal_value_prefix(digits, i - start + 1);
        }
        let tens = match value.checked_mul(10) {
            Some(tens) => tens,
            None => {
                return None;
            },
        };
        value = match tens.checked_add(digit) {
            Some(sum) => sum,
            None => {
                return None;
            },
        };
        i += 1;
    }
    assert(digits.take(i - start) =~= digits);
    if value == 0 {
        None
    } else {
        Some(value)
    }
}

/// Reads `chars[from..to]` as one side of a range.
pub fn parse_side(chars: &Vec<char>, from: usize, to: usize) -> (side: Option<Option<u32>>)
    requires
        from <= to <= chars.len(),
    ensures
        match side {
            Some(Some(n)) => side_of(chars@.subrange(from as int, to as int)) == Some(Some(n as nat)),
            Some(None) => side_of(chars@.subrange(from as int, to as int)) == Some(None::<nat>),
            None => side_of(chars@.subrange(from as int, to as int)) is None,
        },
{
    if from == to {
        Some(None)
    } else {
        match parse_bound(chars, from, to) {
            Some(n) => Some(Some(n)),
            None => None,
        }
    }
}

/// Reads `chars` as a filter expression and gives its two bounds, or says why
/// it has none.
pub fn parse_expr(chars: &Vec<char>) -> (parsed: Result<(Option<u32>, Option<u32>), InvalidFilterKind>)
    ensures
        match parsed {
            Ok((lower, upper)) => parse_spec(chars@) == Ok::<Span, InvalidFilterKind>(
                Span::of(lower, upper),
            ),
            Err(kind) => parse_spec(chars@) == Err::<Span, InvalidFilterKind>(kind),
        },
{
    let len = chars.len();
    assert(chars@.subrange(0, len as int) =~= chars@);
    let colon = find_char(chars, 0, len, ':');
    if colon == len {
        return match parse_bound(chars, 0, len) {
            Some(n) => Ok((Some(n), Some(n))),
            None => Err(InvalidFilterKind::Parse),
        };
    }
    assert(chars@.take(colon as int) =~= chars@.subrange(0, colon as int));
    assert(chars@.skip(colon + 1) =~= chars@.subrange(colon + 1, len as int));
    let second = find_char(chars, colon + 1, len, ':');
    if second < len {
        return Err(InvalidFilterKind::Parse);
    }
    let lower = match parse_side(chars, 0, colon) {
        Some(side) => side,
        None => {
            return Err(InvalidFilterKind::Parse);
        },
    };
    let upper = match parse_side(chars, colon + 1, len) {
        Some(side) => side,
        None => {
            return Err(InvalidFilterKind::Parse);
        },
    };
    match (lower, upper) {
        (Some(lo), Some(hi)) => {
            if lo > hi {
                return Err(InvalidFilterKind::Range);
            }
        },
        _ => {},
    }
    Ok((lower, upper))
}

/// Every range that an expression writes is well formed, with bounds that fit
/// in 32 bits.
pub proof fn lemma_parse_spec_wf(s: Seq<char>)
    ensures
        parse_spec(s) matches Ok(span) ==> span.wf() && span.fits_u32(),
{
}

/// The character that writes the digit `d`.
pub open spec fn digit_char(d: nat) -> char {
    seq!['0', '1', '2', '3', '4', '5', '6', '7', '8', '9'][d as int]
}

/// The digits that write `n` in base ten, without leading zeros.
pub open spec fn decimal(n: nat) -> Seq<char>
    decreases n,
{
    if n < 10 {
        seq![digit_char(n)]
    } else {
        decimal(n / 10).push(digit_char(n % 10))
    }
}

/// Writing a number in base ten gives a numeral with that value.
pub proof fn lemma_decimal(n: nat)
    ensures
        decimal(n).len() >= 1,
        all_digits(decimal(n)),
        decimal_value(decimal(n)) == n,
        is_numeral(decimal(n)),
        numeral_value(decimal(n)) == n,
        1 <= n <= u32::MAX ==> bound_of(decimal(n)) == Some(n),
    decreases n,
{
    let s = decimal(n);
    if n < 10 {
        assert(s.drop_last() =~= Seq::<char>::empty());
        assert(decimal_value(s.drop_last()) == 0);
        assert(digit_value(s.last()) == n);
    } else {
        let head = decimal(n / 10);
        let last = digit_char(n % 10);
        lemma_decimal(n / 10);
        assert(digit_value(last) == n % 10);
        lemma_decimal_value_push(head, last);
        assert(decimal_value(s) == 10 * (n / 10) + n % 10);
        assert forall|i: int| 0 <= i < s.len() implies is_digit(#[trigger] s[i]) by {
            if i < head.len() {
                assert(s[i] == head[i]);
            }
        }
    }
    assert(is_digit(s[0]));
    assert(unsigned_part(s) == s);
}

/// A numeral holds no colon.
pub proof fn lemma_numeral_has_no_colon(s: Seq<char>)
    requires
        is_numeral(s),
    ensures
        prefix_len(s, is_char(':')) == s.len(),
{
    let digits = unsigned_part(s);
    assert forall|j: int| 0 <= j < s.len() implies !is_char(':')(#[trigger] s[j]) by {
        if s[0] == '+' {
            if j > 0 {
                assert(is_digit(digits[j - 1]));
            }
        } else {
            assert(is_digit(digits[j]));
        }
    }
    assert(is_prefix_len(s, is_char(':'), s.len() as int));
    lemma_prefix_len(s, is_char(':'));
}

/// Where `left` holds no colon, `left`, a colon and `right` split at that colon
/// into `left` and `right` again.
pub proof fn lemma_split_at_colon(left: Seq<char>, right: Seq<char>)
    requires
        prefix_len(left, is_char(':')) == left.len(),
    ensures
        prefix_len(left + seq![':'] + right, is_char(':')) == left.len(),
        (left + seq![':'] + right).take(left.len() as int) == left,
        (left + seq![':'] + right).skip(left.len() as int + 1) == right,
{
    let s = left + seq![':'] + right;
    lemma_prefix_len(left, is_char(':'));
    assert forall|j: int| 0 <= j < left.len() implies !is_char(':')(#[trigger] s[j]) by {
        assert(s[j] == left[j]);
    }
    assert(s[left.len() as int] == ':');
    assert(is_prefix_len(s, is_char(':'), left.len() as int));
    lemma_prefix_len(s, is_char(':'));
    assert(s.take(left.len() as int) =~= left);
    assert(s.skip(left.len() as int + 1) =~= right);
}

/// A numeral on its own selects the one position that it writes, and no other.
pub proof fn lemma_index_selects_itself(token: Seq<char>, position: nat)
    requires
        bound_of(token) is Some,
    ensures
        parse_spec(token) matches Ok(span) && (span.contains(position) <==> position
            == numeral_value(token)),
{
    lemma_numeral_has_no_colon(token);
}

/// Two bounds around a colon, the first not above the second, select the
/// positions from the first to the second, both included, and no other.
pub proof fn lemma_range_is_inclusive(left: Seq<char>, right: Seq<char>, position: nat)
    requires
        bound_of(left) is Some,
        bound_of(right) is Some,
        numeral_value(left) <= numeral_value(right),
    ensures
        parse_spec(left + seq![':'] + right) matches Ok(span) && (span.contains(position)
            <==> numeral_value(left) <= position <= numeral_value(right)),
{
    lemma_numeral_has_no_colon(left);
    lemma_numeral_has_no_colon(right);
    lemma_split_at_colon(left, right);
}

/// A bound followed by a colon selects every position from the bound upwards,
/// without an end.
pub proof fn lemma_open_above(left: Seq<char>, position: nat)
    requires
        bound_of(left) is Some,
    ensures
        parse_spec(left + seq![':']) matches Ok(span) && (span.contains(position)
            <==> numeral_value(left) <= position),
{
    let none = Seq::<char>::empty();
    lemma_numeral_has_no_colon(left);
    lemma_split_at_colon(left, none);
    assert(left + seq![':'] + none =~= left + seq![':']);
}

/// A colon followed by a bound selects every position up to the bound.
pub proof fn lemma_open_below(right: Seq<char>, position: nat)
    requires
        bound_of(right) is Some,
    ensures
        parse_spec(seq![':'] + right) matches Ok(span) && (span.contains(position) <==> position
            <= numeral_value(right)),
{
    let none = Seq::<char>::empty();
    lemma_numeral_has_no_colon(right);
    lemma_split_at_colon(none, right);
    assert(none + seq![':'] + right =~= seq![':'] + right);
}

/// A colon alone selects every position.
pub proof fn lemma_colon_selects_all(position: nat)
    ensures
        parse_spec(seq![':']) matches Ok(span) && span.contains(position),
{
    let none = Seq::<char>::empty();
    lemma_split_at_colon(none, none);
    assert(none + seq![':'] + none =~= seq![':']);
}

/// Two bounds around a colon, the first above the second, are turned down as
/// an inverted range.
pub proof fn lemma_rejects_inverted(left: Seq<char>, right: Seq<char>)
    requires
        bound_of(left) is Some,
        bound_of(right) is Some,
        numeral_value(left) > numeral_value(right),
    ensures
        parse_spec(left + seq![':'] + right) == Err::<Span, InvalidFilterKind>(
            InvalidFilterKind::Range,
        ),
{
    lemma_numeral_has_no_colon(left);
    lemma_numeral_has_no_colon(right);
    lemma_split_at_colon(left, right);
}

/// The empty expression is turned down.
pub proof fn lemma_rejects_empty()
    ensures
        parse_spec(Seq::<char>::empty()) == Err::<Span, InvalidFilterKind>(
            InvalidFilterKind::Parse,
        ),
{
}

/// An expression without a colon that does not write a bound is turned down:
/// a numeral of value zero or beyond 32 bits, and whatever is no numeral, such
/// as text with a letter or a minus sign in it.
pub proof fn lemma_rejects_non_bound(token: Seq<char>)
    requires
        forall|i: int| 0 <= i < token.len() ==> token[i] != ':',
        !is_numeral(token) || numeral_value(token) == 0 || numeral_value(token) > u32::MAX,
    ensures
        parse_spec(token) == Err::<Span, InvalidFilterKind>(InvalidFilterKind::Parse),
{
    assert(is_prefix_len(token, is_char(':'), token.len() as int));
    lemma_prefix_len(token, is_char(':'));
}

/// Text that holds a character which is neither a digit nor a plus sign in
/// front is no numeral.
pub proof fn lemma_not_numeral(token: Seq<char>, at: int)
    requires
        0 <= at < token.len(),
        !is_digit(token[at]),
        at > 0 || token[at] != '+',
    ensures
        !is_numeral(token),
{
    let digits = unsigned_part(token);
    if token[0] == '+' {
        assert(digits[at - 1] == token[at]);
    } else {
        assert(digits[at] == token[at]);
    }
}

/// A character that is neither a digit, a colon nor a plus sign has the
/// expression turned down, wherever it stands. Letters, blanks and the minus
/// sign are such characters: no text that is not numeric is valid, and no
/// negative number.
pub proof fn lemma_rejects_stray_character(token: Seq<char>, at: int)
    requires
        0 <= at < token.len(),
        !is_digit(token[at]),
        token[at] != ':',
        token[at] != '+',
    ensures
        parse_spec(token) == Err::<Span, InvalidFilterKind>(InvalidFilterKind::Parse),
{
    lemma_prefix_len(token, is_char(':'));
    let colon = prefix_len(token, is_char(':')) as int;
    if colon == token.len() {
        lemma_not_numeral(token, at);
    } else {
        let left = token.take(colon);
        let right = token.skip(colon + 1);
        if at < colon {
            assert(left[at] == token[at]);
            lemma_not_numeral(left, at);
        } else {
            assert(right[at - colon - 1] == token[at]);
            lemma_not_numeral(right, at - colon - 1);
        }
    }
}

/// Digits that are all zeros write the value zero.
pub proof fn lemma_zeros(s: Seq<char>)
    requires
        forall|i: int| 0 <= i < s.len() ==> s[i] == '0',
    ensures
        decimal_value(s) == 0,
    decreases s.len(),
{
    if s.len() > 0 {
        lemma_zeros(s.drop_last());
    }
}

/// An expression of zeros only is turned down: there is no position 0.
pub proof fn lemma_rejects_zero(token: Seq<char>)
    requires
        token.len() > 0,
        forall|i: int| 0 <= i < token.len() ==> token[i] == '0',
    ensures
        parse_spec(token) == Err::<Span, InvalidFilterKind>(InvalidFilterKind::Parse),
{
    lemma_zeros(token);
    assert(unsigned_part(token) == token);
    lemma_rejects_non_bound(token);
}

/// A side of a range that is neither empty nor a bound has the expression
/// turned down.
pub proof fn lemma_rejects_bad_side(left: Seq<char>, right: Seq<char>)
    requires
        side_of(left) is None || side_of(right) is None,
    ensures
        parse_spec(left + seq![':'] + right) == Err::<Span, InvalidFilterKind>(
            InvalidFilterKind::Parse,
        ),
{
    let s = left + seq![':'] + right;
    lemma_prefix_len(s, is_char(':'));
    let colon = prefix_len(s, is_char(':')) as int;
    if colon < left.len() {
        // an earlier colon inside `left`: the one after `left` is a second one
        lemma_rejects_second_colon(s, colon, left.len() as int);
    } else {
        assert(s[left.len() as int] == ':');
        lemma_prefix_len(left, is_char(':'));
        assert forall|j: int| 0 <= j < left.len() implies !is_char(':')(#[trigger] left[j]) by {
            assert(left[j] == s[j]);
        }
        assert(is_prefix_len(left, is_char(':'), left.len() as int));
        lemma_split_at_colon(left, right);
    }
}

/// An expression with more than one colon is turned down.
pub proof fn lemma_rejects_second_colon(s: Seq<char>, first: int, second: int)
    requires
        0 <= first < second < s.len(),
        s[first] == ':',
        s[second] == ':',
    ensures
        parse_spec(s) == Err::<Span, InvalidFilterKind>(InvalidFilterKind::Parse),
{
    lemma_prefix_len(s, is_char(':'));
    let colon = prefix_len(s, is_char(':')) as int;
    assert(colon <= first) by {
        if colon > first {
            assert(!is_char(':')(s[first]));
        }
    }
    let right = s.skip(colon + 1);
    lemma_prefix_len(right, is_char(':'));
    let next = prefix_len(right, is_char(':')) as int;
    assert(right[second - colon - 1] == s[second]);
    if next == right.len() {
        assert(!is_char(':')(right[second - colon - 1]));
    }
}

/// The number `n`, written in base ten, selects position `n` and no other.
pub proof fn lemma_written_index(n: nat, position: nat)
    requires
        1 <= n <= u32::MAX,
    ensures
        parse_spec(decimal(n)) == Ok::<Span, InvalidFilterKind>(
            Span { lower: Some(n), upper: Some(n) },
        ),
        (Span { lower: Some(n), upper: Some(n) }).contains(position) <==> position == n,
{
    lemma_decimal(n);
    lemma_numeral_has_no_colon(decimal(n));
}

/// Two numbers written in base ten around a colon give the range from the
/// first to the second, or an inverted range where the first is the greater.
pub proof fn lemma_written_range(n: nat, m: nat)
    requires
        1 <= n <= u32::MAX,
        1 <= m <= u32::MAX,
    ensures
        parse_spec(decimal(n) + seq![':'] + decimal(m)) == if n <= m {
            Ok::<Span, InvalidFilterKind>(Span { lower: Some(n), upper: Some(m) })
        } else {
            Err::<Span, InvalidFilterKind>(InvalidFilterKind::Range)
        },
{
    lemma_decimal(n);
    lemma_decimal(m);
    lemma_numeral_has_no_colon(decimal(n));
    lemma_numeral_has_no_colon(decimal(m));
    lemma_split_at_colon(decimal(n), decimal(m));
}

/// `left`, a colon and `right`.
pub open spec fn range_text(left: Seq<char>, right: Seq<char>) -> Seq<char> {
    left + seq![':'] + right
}

/// An expression that is accepted is a bound alone, or two sides around one
/// colon, each of them empty or a bound.
pub proof fn lemma_accepted_shapes(s: Seq<char>)
    requires
        parse_spec(s) is Ok,
    ensures
        bound_of(s) is Some || exists|left: Seq<char>, right: Seq<char>|
            #[trigger] range_text(left, right) == s && side_of(left) is Some && side_of(right)
                is Some,
{
    lemma_prefix_len(s, is_char(':'));
    let colon = prefix_len(s, is_char(':')) as int;
    if colon < s.len() {
        let left = s.take(colon);
        let right = s.skip(colon + 1);
        assert(range_text(left, right) =~= s);
    }
}

} // verus!
