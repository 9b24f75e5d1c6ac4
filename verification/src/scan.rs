//! Where the first character of some kind stands in a sequence.

use vstd::prelude::*;

verus! {

/// How many characters at the front of `s` come before its first `stop`
/// character: the index of that character, or the length of `s` if it has none.
pub open spec fn prefix_len(s: Seq<char>, stop: spec_fn(char) -> bool) -> nat
    decreases s.len(),
{
    if s.len() == 0 || stop(s[0]) {
        0
    } else {
        1 + prefix_len(s.drop_first(), stop)
    }
}

/// Whether `n` is the index of the first `stop` character of `s`, or the length
/// of `s` where it has none.
pub open spec fn is_prefix_len(s: Seq<char>, stop: spec_fn(char) -> bool, n: int) -> bool {
    &&& 0 <= n <= s.len()
    &&& forall|j: int| 0 <= j < n ==> !stop(#[trigger] s[j])
    &&& (n < s.len() ==> stop(s[n]))
}

/// `prefix_len` is the one number that `is_prefix_len` describes.
pub proof fn lemma_prefix_len(s: Seq<char>, stop: spec_fn(char) -> bool)
    ensures
        is_prefix_len(s, stop, prefix_len(s, stop) as int),
        forall|n: int| is_prefix_len(s, stop, n) ==> n == prefix_len(s, stop),
    decreases s.len(),
{
    if s.len() == 0 || stop(s[0]) {
        assert forall|n: int| is_prefix_len(s, stop, n) implies n == 0 by {
            if n > 0 {
                assert(!stop(s[0]));
            }
        }
    } else {
        let t = s.drop_first();
        lemma_prefix_len(t, stop);
        let m = prefix_len(t, stop) as int;
        assert forall|j: int| 0 <= j < m + 1 implies !stop(#[trigger] s[j]) by {
            if j > 0 {
                assert(s[j] == t[j - 1]);
            }
        }
        if m + 1 < s.len() {
            assert(s[m + 1] == t[m]);
        }
        assert forall|n: int| is_prefix_len(s, stop, n) implies n == m + 1 by {
            if n == 0 {
                assert(stop(s[0]));
            }
            assert forall|j: int| 0 <= j < n - 1 implies !stop(#[trigger] t[j]) by {
                assert(t[j] == s[j + 1]);
            }
            if n - 1 < t.len() {
                assert(t[n - 1] == s[n]);
            }
            assert(is_prefix_len(t, stop, n - 1));
        }
    }
}

/// The predicate that holds of `target` alone.
pub open spec fn is_char(target: char) -> spec_fn(char) -> bool {
    |c: char| c == target
}

/// The index of the first `target` in `chars[from..to]`, counted from the start
/// of `chars`, or `to` if there is none.
pub fn find_char(chars: &Vec<char>, from: usize, to: usize, target: char) -> (at: usize)
    requires
        from <= to <= chars.len(),
    ensures
        from <= at <= to,
        at - from == prefix_len(chars@.subrange(from as int, to as int), is_char(target)),
{
    let ghost part = chars@.subrange(from as int, to as int);
    let mut at: usize = from;
    while at < to && chars[at] != target
        invariant
            from <= at <= to <= chars.len(),
            part == chars@.subrange(from as int, to as int),
            forall|j: int| 0 <= j < at - from ==> !is_char(target)(#[trigger] part[j]),
        decreases to - at,
    {
        at += 1;
    }
    proof {
        assert(is_prefix_len(part, is_char(target), at - from));
        lemma_prefix_len(part, is_char(target));
    }
    at
}

} // verus!
