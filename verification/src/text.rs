//! Conversions between strings and character vectors, and the character
//! sequence notions shared by the rest of the library.

use vstd::prelude::*;

verus! {

/// Appends one character to a string.
///
/// Specifies `String::push`: the string afterwards is the string before
/// followed by `c`.
#[verifier::external_body]
pub(crate) fn push_char(s: &mut String, c: char)
    ensures
        final(s)@ == old(s)@.push(c),
{
    s.push(c)
}

/// The characters of `s`, in order.
pub fn chars_of(s: &str) -> (out: Vec<char>)
    ensures
        out@ == s@,
{
    let mut out: Vec<char> = Vec::new();
    for c in it: s.chars()
        invariant
            out@ == it.seq().take(it.index()),
            it.seq() == s@,
    {
        out.push(c);
    }
    out
}

/// The string made of the characters `v[from..to]`.
pub(crate) fn slice_string(v: &Vec<char>, from: usize, to: usize) -> (out: String)
    requires
        from <= to <= v.len(),
    ensures
        out@ == v@.subrange(from as int, to as int),
{
    let mut out = String::new();
    let mut i: usize = from;
    while i < to
        invariant
            from <= i <= to <= v.len(),
            out@ == v@.subrange(from as int, i as int),
        decreases to - i,
    {
        push_char(&mut out, v[i]);
        i += 1;
        assert(v@.subrange(from as int, i as int) == v@.subrange(from as int, i - 1).push(
            v@[i - 1],
        ));
    }
    out
}

/// The string made of the characters of `v`, in order.
pub fn string_of(v: &Vec<char>) -> (out: String)
    ensures
        out@ == v@,
{
    assert(v@.subrange(0, v@.len() as int) == v@);
    slice_string(v, 0, v.len())
}

/// Whether two character vectors hold the same text.
pub fn same_chars(a: &Vec<char>, b: &Vec<char>) -> (same: bool)
    ensures
        same == (a@ == b@),
{
    if a.len() != b.len() {
        return false;
    }
    let mut i: usize = 0;
    while i < a.len()
        invariant
            i <= a.len(),
            a.len() == b.len(),
            forall|k: int| 0 <= k < i ==> a@[k] == b@[k],
        decreases a.len() - i,
    {
        if a[i] != b[i] {
            return false;
        }
        i += 1;
    }
    assert(a@ =~= b@);
    true
}

/// Whether two strings hold the same text.
pub fn same_text(a: &str, b: &str) -> (same: bool)
    ensures
        same == (a@ == b@),
{
    let x = chars_of(a);
    let y = chars_of(b);
    same_chars(&x, &y)
}

/// The texts of a sequence of strings.
pub open spec fn texts(v: Seq<String>) -> Seq<Seq<char>> {
    Seq::new(v.len(), |i: int| v[i]@)
}

/// The text of an optional string.
pub open spec fn opt_text(o: Option<String>) -> Option<Seq<char>> {
    match o {
        Some(s) => Some(s@),
        None => None,
    }
}

/// The position of the first `c` in `s`, or the length of `s` where it has none.
pub open spec fn index_of(s: Seq<char>, c: char) -> int
    decreases s.len(),
{
    if s.len() == 0 {
        0
    } else if s[0] == c {
        0
    } else {
        1 + index_of(s.drop_first(), c)
    }
}

/// `index_of` lies within the sequence, nothing before it is `c`, and what it
/// points at is `c`.
pub proof fn lemma_index_of(s: Seq<char>, c: char)
    ensures
        0 <= index_of(s, c) <= s.len(),
        forall|k: int| 0 <= k < index_of(s, c) ==> s[k] != c,
        index_of(s, c) < s.len() ==> s[index_of(s, c)] == c,
    decreases s.len(),
{
    if s.len() > 0 && s[0] != c {
        let rest = s.drop_first();
        lemma_index_of(rest, c);
        assert forall|k: int| 0 <= k < index_of(s, c) implies s[k] != c by {
            if k > 0 {
                assert(s[k] == rest[k - 1]);
            }
        }
    }
}

/// A position that nothing equal to `c` precedes, and that is the end or holds
/// `c`, is `index_of`.
pub proof fn lemma_index_of_is(s: Seq<char>, c: char, i: int)
    requires
        0 <= i <= s.len(),
        forall|k: int| 0 <= k < i ==> s[k] != c,
        i < s.len() ==> s[i] == c,
    ensures
        index_of(s, c) == i,
{
    lemma_index_of(s, c);
    let j = index_of(s, c);
    if j < i {
        assert(s[j] == c);
    } else if i < j {
        assert(s[i] == c);
    }
}

/// Whether `s` holds `c`.
pub open spec fn has_char(s: Seq<char>, c: char) -> bool {
    index_of(s, c) < s.len()
}

/// The position of the first `c` in `v[from..to]`, counted from the start of
/// `v`, or `to` where there is none.
pub(crate) fn find_char(v: &Vec<char>, from: usize, to: usize, c: char) -> (at: usize)
    requires
        from <= to <= v.len(),
    ensures
        from <= at <= to,
        at == from + index_of(v@.subrange(from as int, to as int), c),
{
    let mut i: usize = from;
    while i < to && v[i] != c
        invariant
            from <= i <= to <= v.len(),
            forall|k: int| from <= k < i ==> v@[k] != c,
        decreases to - i,
    {
        i += 1;
    }
    proof {
        let part = v@.subrange(from as int, to as int);
        assert forall|k: int| 0 <= k < i - from implies part[k] != c by {
            assert(part[k] == v@[from + k]);
        }
        lemma_index_of_is(part, c, i - from);
    }
    i
}

/// Whether `p` is a prefix of `s`.
pub open spec fn is_prefix(p: Seq<char>, s: Seq<char>) -> bool {
    p.len() <= s.len() && s.take(p.len() as int) == p
}

/// Whether `v` begins with `p`.
pub fn begins_with(v: &Vec<char>, p: &Vec<char>) -> (yes: bool)
    ensures
        yes == is_prefix(p@, v@),
{
    if p.len() > v.len() {
        return false;
    }
    let mut i: usize = 0;
    while i < p.len()
        invariant
            i <= p.len() <= v.len(),
            forall|k: int| 0 <= k < i ==> v@[k] == p@[k],
        decreases p.len() - i,
    {
        if v[i] != p[i] {
            assert(v@.take(p@.len() as int)[i as int] != p@[i as int]);
            return false;
        }
        i += 1;
    }
    assert(v@.take(p@.len() as int) =~= p@);
    true
}

} // verus!
