//! ASCII whitespace and trimming.

use vstd::prelude::*;

verus! {

/// The six ASCII whitespace characters: space, horizontal tab, line feed,
/// vertical tab, form feed and carriage return.
pub open spec fn is_space(c: char) -> bool {
    c == ' ' || c == '\t' || c == '\n' || c == '\x0B' || c == '\x0C' || c == '\r'
}

/// `s` without its leading whitespace.
pub open spec fn trim_start(s: Seq<char>) -> Seq<char>
    decreases s.len(),
{
    if s.len() > 0 && is_space(s.first()) {
        trim_start(s.drop_first())
    } else {
        s
    }
}

/// `s` without its trailing whitespace.
pub open spec fn trim_end(s: Seq<char>) -> Seq<char>
    decreases s.len(),
{
    if s.len() > 0 && is_space(s.last()) {
        trim_end(s.drop_last())
    } else {
        s
    }
}

/// `s` without the whitespace at either end. Whitespace inside stays.
pub open spec fn trim(s: Seq<char>) -> Seq<char> {
    trim_end(trim_start(s))
}

/// Whether `from..to` is the part of `s` that trimming keeps: whitespace and
/// nothing else lies outside it, and it neither starts nor ends with
/// whitespace. For a string of whitespace alone it is the empty range at the end.
pub open spec fn is_trim_range(s: Seq<char>, from: int, to: int) -> bool {
    &&& 0 <= from <= to <= s.len()
    &&& forall|k: int| 0 <= k < from ==> is_space(#[trigger] s[k])
    &&& forall|k: int| to <= k < s.len() ==> is_space(#[trigger] s[k])
    &&& if from < to {
        !is_space(s[from]) && !is_space(s[to - 1])
    } else {
        from == s.len()
    }
}

proof fn lemma_trim_start_at(s: Seq<char>, from: int)
    requires
        0 <= from <= s.len(),
        forall|k: int| 0 <= k < from ==> is_space(#[trigger] s[k]),
        from == s.len() || !is_space(s[from]),
    ensures
        trim_start(s) == s.skip(from),
    decreases from,
{
    if from == 0 {
        assert(s.skip(0) =~= s);
    } else {
        assert(is_space(s[0]));
        let rest = s.drop_first();
        assert forall|k: int| 0 <= k < from - 1 implies is_space(#[trigger] rest[k]) by {
            assert(rest[k] == s[k + 1]);
        }
        lemma_trim_start_at(rest, from - 1);
        assert(rest.skip(from - 1) =~= s.skip(from));
    }
}

proof fn lemma_trim_end_at(s: Seq<char>, to: int)
    requires
        0 <= to <= s.len(),
        forall|k: int| to <= k < s.len() ==> is_space(#[trigger] s[k]),
        to == 0 || !is_space(s[to - 1]),
    ensures
        trim_end(s) == s.take(to),
    decreases s.len() - to,
{
    if to == s.len() {
        assert(s.take(to) =~= s);
    } else {
        assert(is_space(s[s.len() - 1]));
        let rest = s.drop_last();
        assert forall|k: int| to <= k < rest.len() implies is_space(#[trigger] rest[k]) by {
            assert(rest[k] == s[k]);
        }
        lemma_trim_end_at(rest, to);
        assert(rest.take(to) =~= s.take(to));
    }
}

/// Trimming keeps exactly the trim range.
pub proof fn lemma_trim_is_subrange(s: Seq<char>, from: int, to: int)
    requires
        is_trim_range(s, from, to),
    ensures
        trim(s) == s.subrange(from, to),
{
    lemma_trim_start_at(s, from);
    let rest = s.skip(from);
    assert forall|k: int| to - from <= k < rest.len() implies is_space(#[trigger] rest[k]) by {
        assert(rest[k] == s[k + from]);
    }
    lemma_trim_end_at(rest, to - from);
    assert(rest.take(to - from) =~= s.subrange(from, to));
}

proof fn lemma_leading_spaces(s: Seq<char>) -> (from: int)
    ensures
        0 <= from <= s.len(),
        forall|k: int| 0 <= k < from ==> is_space(#[trigger] s[k]),
        from == s.len() || !is_space(s[from]),
    decreases s.len(),
{
    if s.len() > 0 && is_space(s[0]) {
        let rest = s.drop_first();
        let r = lemma_leading_spaces(rest);
        assert forall|k: int| 0 <= k < r + 1 implies is_space(#[trigger] s[k]) by {
            if k > 0 {
                assert(s[k] == rest[k - 1]);
            }
        }
        if r < rest.len() {
            assert(rest[r] == s[r + 1]);
        }
        r + 1
    } else {
        0
    }
}

proof fn lemma_trailing_spaces(s: Seq<char>, from: int) -> (to: int)
    requires
        0 <= from <= s.len(),
        from == s.len() || !is_space(s[from]),
    ensures
        from <= to <= s.len(),
        forall|k: int| to <= k < s.len() ==> is_space(#[trigger] s[k]),
        from < to ==> !is_space(s[to - 1]),
        from == to ==> from == s.len(),
    decreases s.len(),
{
    if s.len() > from && is_space(s[s.len() - 1]) {
        let rest = s.drop_last();
        assert(from < rest.len()) by {
            if from == rest.len() {
                assert(s[from] == s[s.len() - 1]);
            }
        }
        assert(rest[from] == s[from]);
        let r = lemma_trailing_spaces(rest, from);
        assert forall|k: int| r <= k < s.len() implies is_space(#[trigger] s[k]) by {
            if k < rest.len() {
                assert(s[k] == rest[k]);
            }
        }
        if from < r {
            assert(rest[r - 1] == s[r - 1]);
        }
        r
    } else {
        s.len() as int
    }
}

/// Every string has a trim range.
pub proof fn lemma_trim_range_exists(s: Seq<char>) -> (r: (int, int))
    ensures
        is_trim_range(s, r.0, r.1),
        trim(s) == s.subrange(r.0, r.1),
{
    let from = lemma_leading_spaces(s);
    let to = lemma_trailing_spaces(s, from);
    lemma_trim_is_subrange(s, from, to);
    (from, to)
}

/// Trimming a trimmed string changes nothing.
pub proof fn lemma_trim_idempotent(s: Seq<char>)
    ensures
        trim(trim(s)) == trim(s),
{
    let (from, to) = lemma_trim_range_exists(s);
    let t = s.subrange(from, to);
    if from < to {
        assert(t[0] == s[from]);
        assert(t[t.len() - 1] == s[to - 1]);
        assert(is_trim_range(t, 0, t.len() as int));
        lemma_trim_is_subrange(t, 0, t.len() as int);
        assert(t.subrange(0, t.len() as int) =~= t);
    } else {
        assert(trim_start(t) == t);
        assert(trim_end(t) == t);
    }
}

/// The text that a sequence of bytes spells when each byte is one character.
pub open spec fn byte_text(bytes: Seq<u8>) -> Seq<char> {
    Seq::new(bytes.len(), |i: int| bytes[i] as char)
}

/// Whether the byte `b` is the code of an ASCII whitespace character.
pub fn is_space_byte(b: u8) -> (r: bool)
    ensures
        r == is_space(b as char),
{
    b == 32 || (9 <= b && b <= 13)
}

/// Finds the part of `bytes` that trimming keeps.
pub fn trim_range(bytes: &[u8]) -> (r: (usize, usize))
    ensures
        is_trim_range(byte_text(bytes@), r.0 as int, r.1 as int),
        byte_text(bytes@).subrange(r.0 as int, r.1 as int) == trim(byte_text(bytes@)),
{
    let ghost s = byte_text(bytes@);
    let n: usize = bytes.len();
    let mut from: usize = 0;
    while from < n && is_space_byte(bytes[from])
        invariant
            n == bytes.len(),
            s == byte_text(bytes@),
            from <= n,
            forall|k: int| 0 <= k < from ==> is_space(#[trigger] s[k]),
        ensures
            from == n || !is_space(s[from as int]),
        decreases n - from,
    {
        assert(s[from as int] == bytes[from as int] as char);
        from = from + 1;
    }
    let mut to: usize = n;
    while to > from && is_space_byte(bytes[to - 1])
        invariant
            n == bytes.len(),
            s == byte_text(bytes@),
            from <= to <= n,
            from == n || !is_space(s[from as int]),
            forall|k: int| to <= k < n ==> is_space(#[trigger] s[k]),
        ensures
            from < to ==> !is_space(s[to - 1]),
        decreases to,
    {
        assert(s[to - 1] == bytes[to - 1] as char);
        to = to - 1;
    }
    proof {
        lemma_trim_is_subrange(s, from as int, to as int);
    }
    (from, to)
}

} // verus!
