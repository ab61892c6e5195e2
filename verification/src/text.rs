//! Character-level scanning used by the wire codec.
//!
//! The wire format is a list of segments separated by a single character.
//! `first_at` gives the position of the first separator, `split_on` the
//! resulting segments; `scan_for` is the executable counterpart of
//! `first_at` over a bounded range of a `&str`.

use vstd::prelude::*;

verus! {

/// Index of the first occurrence of `sep` in `s`, or `s.len()` if none.
pub open spec fn first_at(s: Seq<char>, sep: char) -> nat
    decreases s.len(),
{
    if s.len() == 0 {
        0
    } else if s[0] == sep {
        0
    } else {
        1 + first_at(s.drop_first(), sep)
    }
}

/// The segments of `s` between occurrences of `sep`, in order. A string
/// without the separator is one segment; every string has at least one.
pub open spec fn split_on(s: Seq<char>, sep: char) -> Seq<Seq<char>>
    decreases s.len(),
{
    let i = first_at(s, sep);
    if i >= s.len() {
        seq![s]
    } else {
        seq![s.take(i as int)] + split_on(s.skip(i as int + 1), sep)
    }
}

/// A position with no separator before it, and a separator (or the end)
/// on it, is exactly `first_at`.
pub proof fn lemma_first_at_is(s: Seq<char>, sep: char, m: int)
    requires
        0 <= m <= s.len(),
        forall|j: int| 0 <= j < m ==> s[j] != sep,
        m < s.len() ==> s[m] == sep,
    ensures
        first_at(s, sep) == m,
    decreases s.len(),
{
    if m == 0 {
    } else {
        assert(s[0] != sep);
        assert forall|j: int| 0 <= j < m - 1 implies s.drop_first()[j] != sep by {
            assert(s.drop_first()[j] == s[j + 1]);
        }
        if m - 1 < s.drop_first().len() {
            assert(s.drop_first()[m - 1] == s[m]);
        }
        lemma_first_at_is(s.drop_first(), sep, m - 1);
    }
}

/// Splitting a separator-free string yields that one segment.
pub proof fn lemma_split_on_whole(s: Seq<char>, sep: char)
    requires
        forall|j: int| 0 <= j < s.len() ==> s[j] != sep,
    ensures
        split_on(s, sep) =~= seq![s],
{
    lemma_first_at_is(s, sep, s.len() as int);
}

/// Splitting `head + sep + tail` peels off `head` as the first segment
/// when `head` itself is separator-free.
pub proof fn lemma_split_on_step(head: Seq<char>, tail: Seq<char>, sep: char)
    requires
        forall|j: int| 0 <= j < head.len() ==> head[j] != sep,
    ensures
        split_on(head + seq![sep] + tail, sep) =~= seq![head] + split_on(tail, sep),
{
    let s = head + seq![sep] + tail;
    assert forall|j: int| 0 <= j < head.len() implies s[j] != sep by {
        assert(s[j] == head[j]);
    }
    assert(s[head.len() as int] == sep);
    lemma_first_at_is(s, sep, head.len() as int);
    assert(s.take(head.len() as int) =~= head);
    assert(s.skip(head.len() as int + 1) =~= tail);
}

/// Relies on `String::push`: appends exactly the given character.
#[verifier::external_body]
pub(crate) fn push_char(s: &mut String, c: char)
    ensures
        final(s)@ == old(s)@ + seq![c],
{
    s.push(c);
}

/// First position of `sep` in `s` at or after `from` and before `until`,
/// or `until` when that range holds no separator.
pub fn scan_for(s: &str, from: usize, until: usize, sep: char) -> (r: usize)
    requires
        from <= until <= s@.len(),
    ensures
        from <= r <= until,
        forall|j: int| from <= j < r ==> s@[j] != sep,
        r < until ==> s@[r as int] == sep,
{
    let mut i: usize = from;
    while i < until
        invariant
            from <= i <= until <= s@.len(),
            forall|j: int| from <= j < i ==> s@[j] != sep,
        decreases until - i,
    {
        if s.get_char(i) == sep {
            return i;
        }
        i = i + 1;
    }
    i
}

} // verus!
