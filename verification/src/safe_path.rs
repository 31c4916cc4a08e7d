//! Validated relative paths.
//!
//! A target name is an arbitrary string. Before it is resolved against a
//! directory it is checked for anything that could lead out of that
//! directory, and brought to a normal form: its parts joined by single
//! slashes, without empty parts and without `.` parts.

use vstd::prelude::*;
use crate::text::{chars_of, find_char, index_of, lemma_index_of, string_of};

verus! {

/// Characters no part of a relative path may hold: the other platform's
/// separator, the drive and stream marker, and the terminator.
pub open spec fn forbidden_char(c: char) -> bool {
    c == '\\' || c == ':' || c == '\0'
}

/// Whether `s` holds a forbidden character.
pub open spec fn has_forbidden(s: Seq<char>) -> bool {
    exists|i: int| 0 <= i < s.len() && forbidden_char(#[trigger] s[i])
}

/// Whether `s` holds two dots in a row.
pub open spec fn has_dot_dot(s: Seq<char>) -> bool {
    exists|i: int| 0 <= i && i + 1 < s.len() && #[trigger] s[i] == '.' && s[i + 1] == '.'
}

/// Whether `s` starts at the root.
pub open spec fn is_absolute(s: Seq<char>) -> bool {
    s.len() > 0 && s[0] == '/'
}

/// Whether `s` is free of every marker that could lead out of a directory,
/// and names something.
pub open spec fn clean(s: Seq<char>) -> bool {
    &&& s.len() > 0
    &&& !is_absolute(s)
    &&& !has_forbidden(s)
    &&& !has_dot_dot(s)
}

/// Whether a part between slashes is kept by normalization.
pub open spec fn kept(part: Seq<char>) -> bool {
    part.len() > 0 && part != seq!['.']
}

/// The parts of `s` between slashes that normalization keeps, in order.
pub open spec fn parts(s: Seq<char>) -> Seq<Seq<char>>
    decreases s.len(),
{
    let i = index_of(s, '/');
    let head = s.take(i);
    let first = if kept(head) {
        seq![head]
    } else {
        Seq::<Seq<char>>::empty()
    };
    if 0 <= i < s.len() {
        first + parts(s.skip(i + 1))
    } else {
        first
    }
}

/// `so_far` followed by `rest`, a slash before each part that does not open
/// the text.
pub open spec fn join_onto(so_far: Seq<char>, rest: Seq<Seq<char>>) -> Seq<char>
    decreases rest.len(),
{
    if rest.len() == 0 {
        so_far
    } else if so_far.len() == 0 {
        join_onto(rest[0], rest.drop_first())
    } else {
        join_onto(so_far + seq!['/'] + rest[0], rest.drop_first())
    }
}

/// The normal form of `s`: its kept parts joined by single slashes.
pub open spec fn normalized(s: Seq<char>) -> Seq<char> {
    join_onto(Seq::<char>::empty(), parts(s))
}

/// Whether `s` is accepted as a relative path: it holds no marker that
/// could lead out of a directory, and its normal form names something.
pub open spec fn is_safe(s: Seq<char>) -> bool {
    &&& !is_absolute(s)
    &&& !has_forbidden(s)
    &&& !has_dot_dot(s)
    &&& normalized(s).len() > 0
}

/// Whether `s` could stand at the start of a clean path: it holds no
/// marker, and does not start at the root.
spec fn sound(s: Seq<char>) -> bool {
    !has_forbidden(s) && !has_dot_dot(s) && !is_absolute(s)
}

/// A stretch of a text without markers holds none.
proof fn lemma_stretch_has_no_marker(s: Seq<char>, from: int, to: int)
    requires
        0 <= from <= to <= s.len(),
        !has_forbidden(s),
        !has_dot_dot(s),
    ensures
        !has_forbidden(s.subrange(from, to)),
        !has_dot_dot(s.subrange(from, to)),
{
    let part = s.subrange(from, to);
    if has_forbidden(part) {
        let i = choose|i: int| 0 <= i < part.len() && forbidden_char(#[trigger] part[i]);
        assert(forbidden_char(s[from + i]));
    }
    if has_dot_dot(part) {
        let i = choose|i: int|
            0 <= i && i + 1 < part.len() && #[trigger] part[i] == '.' && part[i + 1] == '.';
        assert(s[from + i] == '.' && s[from + i + 1] == '.');
    }
}

/// Two sound texts joined by a slash are sound.
proof fn lemma_joined_is_sound(a: Seq<char>, b: Seq<char>)
    requires
        sound(a),
        sound(b),
        a.len() > 0,
    ensures
        sound(a + seq!['/'] + b),
{
    let t = a + seq!['/'] + b;
    assert(t[0] == a[0]);
    if has_forbidden(t) {
        let i = choose|i: int| 0 <= i < t.len() && forbidden_char(#[trigger] t[i]);
        if i < a.len() {
            assert(forbidden_char(a[i]));
        } else if i > a.len() {
            assert(forbidden_char(b[i - a.len() - 1]));
        }
    }
    if has_dot_dot(t) {
        let i = choose|i: int| 0 <= i && i + 1 < t.len() && #[trigger] t[i] == '.' && t[i + 1] == '.';
        if i + 1 < a.len() {
            assert(a[i] == '.' && a[i + 1] == '.');
        } else if i > a.len() {
            assert(b[i - a.len() - 1] == '.' && b[i - a.len()] == '.');
        } else if i + 1 == a.len() {
            assert(t[i + 1] == '/');
        } else {
            assert(t[i] == '/');
        }
    }
}

/// Sound parts joined onto a sound text give a sound text, which is empty
/// only where there was nothing to join.
proof fn lemma_join_is_sound(so_far: Seq<char>, rest: Seq<Seq<char>>)
    requires
        sound(so_far),
        forall|k: int| 0 <= k < rest.len() ==> sound(#[trigger] rest[k]) && rest[k].len() > 0,
    ensures
        sound(join_onto(so_far, rest)),
        so_far.len() > 0 || rest.len() > 0 ==> join_onto(so_far, rest).len() > 0,
    decreases rest.len(),
{
    if rest.len() > 0 {
        let later = rest.drop_first();
        assert forall|k: int| 0 <= k < later.len() implies sound(#[trigger] later[k])
            && later[k].len() > 0 by {
            assert(later[k] == rest[k + 1]);
        }
        assert(sound(rest[0]) && rest[0].len() > 0);
        if so_far.len() == 0 {
            lemma_join_is_sound(rest[0], later);
        } else {
            lemma_joined_is_sound(so_far, rest[0]);
            lemma_join_is_sound(so_far + seq!['/'] + rest[0], later);
        }
    }
}

/// The kept parts of a text without markers are sound and not empty.
proof fn lemma_parts_are_sound(s: Seq<char>)
    requires
        !has_forbidden(s),
        !has_dot_dot(s),
    ensures
        forall|k: int|
            0 <= k < parts(s).len() ==> sound(#[trigger] parts(s)[k]) && parts(s)[k].len() > 0,
    decreases s.len(),
{
    let i = index_of(s, '/');
    lemma_index_of(s, '/');
    let head = s.take(i);
    assert(head =~= s.subrange(0, i));
    lemma_stretch_has_no_marker(s, 0, i);
    if kept(head) {
        assert(head[0] == s[0]);
        assert(sound(head));
    }
    let first = if kept(head) {
        seq![head]
    } else {
        Seq::<Seq<char>>::empty()
    };
    if 0 <= i < s.len() {
        let tail = s.skip(i + 1);
        assert(tail =~= s.subrange(i + 1, s.len() as int));
        lemma_stretch_has_no_marker(s, i + 1, s.len() as int);
        lemma_parts_are_sound(tail);
        let all = first + parts(tail);
        assert forall|k: int| 0 <= k < all.len() implies sound(#[trigger] all[k]) && all[k].len()
            > 0 by {
            if k < first.len() {
                assert(all[k] == head);
            } else {
                assert(all[k] == parts(tail)[k - first.len()]);
            }
        }
    } else {
        assert forall|k: int| 0 <= k < first.len() implies sound(#[trigger] first[k])
            && first[k].len() > 0 by {
            assert(first[k] == head);
        }
    }
}

/// The normal form of a safe name is clean: it names something, does not
/// start at the root, and holds no marker.
pub proof fn lemma_safe_is_clean(s: Seq<char>)
    requires
        is_safe(s),
    ensures
        clean(normalized(s)),
{
    lemma_parts_are_sound(s);
    assert(!has_forbidden(Seq::<char>::empty()) && !has_dot_dot(Seq::<char>::empty()));
    lemma_join_is_sound(Seq::<char>::empty(), parts(s));
}

/// `rel` resolved against the directory `base`.
pub open spec fn resolve(base: Seq<char>, rel: Seq<char>) -> Seq<char> {
    if base.len() == 0 {
        rel
    } else {
        base + seq!['/'] + rel
    }
}

/// Whether `path` lies below the directory `base`: it is `base`, a slash, and
/// a clean relative path.
pub open spec fn lies_under(path: Seq<char>, base: Seq<char>) -> bool {
    exists|rel: Seq<char>| clean(rel) && path == #[trigger] resolve(base, rel)
}

/// Whether `path` is `base` or leads through it: `base` is a prefix of
/// `path` that ends where a part of `path` ends. Nothing leads into the
/// empty path.
pub open spec fn leads_into(path: Seq<char>, base: Seq<char>) -> bool {
    &&& 0 < base.len() <= path.len()
    &&& path.take(base.len() as int) == base
    &&& (path.len() == base.len() || base.last() == '/' || path[base.len() as int] == '/')
}

/// Whether `v` holds a forbidden character.
fn scan_forbidden(v: &Vec<char>) -> (found: bool)
    ensures
        found == has_forbidden(v@),
{
    let mut i: usize = 0;
    while i < v.len()
        invariant
            i <= v.len(),
            forall|k: int| 0 <= k < i ==> !forbidden_char(#[trigger] v@[k]),
        decreases v.len() - i,
    {
        let c = v[i];
        if c == '\\' || c == ':' || c == '\0' {
            return true;
        }
        i += 1;
    }
    false
}

/// Whether `v` holds two dots in a row.
fn scan_dot_dot(v: &Vec<char>) -> (found: bool)
    ensures
        found == has_dot_dot(v@),
{
    if v.len() < 2 {
        return false;
    }
    let mut i: usize = 0;
    while i + 1 < v.len()
        invariant
            i + 1 <= v.len(),
            forall|k: int| 0 <= k < i ==> !(#[trigger] v@[k] == '.' && v@[k + 1] == '.'),
        decreases v.len() - i,
    {
        if v[i] == '.' && v[i + 1] == '.' {
            return true;
        }
        i += 1;
    }
    false
}

/// The normal form of `v`.
fn normalize(v: &Vec<char>) -> (out: Vec<char>)
    ensures
        out@ == normalized(v@),
{
    let mut out: Vec<char> = Vec::new();
    let mut start: usize = 0;
    assert(v@.skip(0) =~= v@);
    loop
        invariant_except_break
            start <= v.len(),
            normalized(v@) == join_onto(out@, parts(v@.skip(start as int))),
        ensures
            out@ == normalized(v@),
        decreases v.len() - start,
    {
        let end = find_char(v, start, v.len(), '/');
        let ghost tail = v@.skip(start as int);
        let ghost before = out@;
        let ghost head = v@.subrange(start as int, end as int);
        proof {
            assert(v@.subrange(start as int, v.len() as int) =~= tail);
            lemma_index_of(tail, '/');
            assert(tail.take(end - start) =~= head);
        }
        let is_dot = end - start == 1 && v[start] == '.';
        proof {
            if is_dot {
                assert(head =~= seq!['.']);
            } else if head.len() == 1 {
                assert(head[0] != '.');
                assert(seq!['.'][0] == '.');
            } else {
                assert(seq!['.'].len() == 1);
            }
            assert(kept(head) == (end > start && !is_dot));
        }
        if end > start && !is_dot {
            if out.len() > 0 {
                out.push('/');
            }
            let mut k: usize = start;
            let ghost base = out@;
            while k < end
                invariant
                    start <= k <= end <= v.len(),
                    out@ == base + v@.subrange(start as int, k as int),
                decreases end - k,
            {
                out.push(v[k]);
                k += 1;
                assert(v@.subrange(start as int, k as int) == v@.subrange(
                    start as int,
                    k - 1,
                ).push(v@[k - 1]));
            }
            proof {
                if before.len() == 0 {
                    assert(out@ =~= head);
                } else {
                    assert(out@ =~= before + seq!['/'] + head);
                }
            }
        }
        proof {
            let rest = if end < v.len() {
                parts(v@.skip(end + 1))
            } else {
                Seq::<Seq<char>>::empty()
            };
            if end < v.len() {
                assert(tail.skip(end - start + 1) =~= v@.skip(end + 1));
            }
            if kept(head) {
                assert(parts(tail) =~= seq![head] + rest);
                assert((seq![head] + rest).drop_first() =~= rest);
                assert((seq![head] + rest)[0] == head);
                assert(join_onto(before, parts(tail)) == join_onto(out@, rest));
            } else {
                assert(parts(tail) =~= rest);
                assert(out@ == before);
            }
            assert(normalized(v@) == join_onto(out@, rest));
        }
        if end >= v.len() {
            break;
        }
        start = end + 1;
    }
    out
}

/// A relative path that has been validated and brought to normal form.
#[derive(Debug)]
pub struct SafePath {
    relative: String,
}

impl View for SafePath {
    type V = Seq<char>;

    /// The relative path in normal form.
    closed spec fn view(&self) -> Seq<char> {
        self.relative@
    }
}

impl SafePath {
    #[verifier::type_invariant]
    closed spec fn checked(&self) -> bool {
        clean(self.relative@)
    }

    /// Validates `name`. It is accepted exactly when it is safe, and the path
    /// then holds its normal form.
    pub fn new(name: &str) -> (path: Option<SafePath>)
        ensures
            path is Some == is_safe(name@),
            path matches Some(p) ==> p@ == normalized(name@) && clean(p@),
    {
        let v = chars_of(name);
        if v.len() > 0 && v[0] == '/' {
            return None;
        }
        if scan_forbidden(&v) || scan_dot_dot(&v) {
            return None;
        }
        let n = normalize(&v);
        if n.len() == 0 {
            return None;
        }
        proof {
            lemma_safe_is_clean(name@);
        }
        Some(SafePath { relative: string_of(&n) })
    }

    /// A copy of the path.
    pub fn duplicate(&self) -> (copy: SafePath)
        ensures
            copy@ == self@,
    {
        proof {
            use_type_invariant(self);
        }
        SafePath { relative: self.relative.clone() }
    }

    /// The relative path as text. It is clean: resolved against a directory
    /// it stays below that directory.
    pub fn as_str(&self) -> (text: &str)
        ensures
            text@ == self@,
            clean(self@),
    {
        proof {
            use_type_invariant(self);
        }
        self.relative.as_str()
    }

    /// The path resolved against the directory `base`.
    pub fn to_path(&self, base: &str) -> (path: String)
        ensures
            path@ == resolve(base@, self@),
            clean(self@),
            base@.len() > 0 ==> lies_under(path@, base@),
    {
        proof {
            use_type_invariant(self);
        }
        join(base, self.relative.as_str())
    }
}

/// `rel` resolved against `base`: `base`, a slash and `rel`, or `rel` alone
/// where `base` is empty.
pub fn join(base: &str, rel: &str) -> (path: String)
    ensures
        path@ == resolve(base@, rel@),
{
    let b = chars_of(base);
    let r = chars_of(rel);
    let mut out: Vec<char> = Vec::new();
    if b.len() > 0 {
        let mut i: usize = 0;
        while i < b.len()
            invariant
                i <= b.len(),
                out@ == b@.take(i as int),
            decreases b.len() - i,
        {
            out.push(b[i]);
            i += 1;
            assert(b@.take(i as int) == b@.take(i - 1).push(b@[i - 1]));
        }
        assert(b@.take(b.len() as int) =~= b@);
        out.push('/');
    }
    let ghost head = out@;
    let mut k: usize = 0;
    while k < r.len()
        invariant
            k <= r.len(),
            out@ == head + r@.take(k as int),
        decreases r.len() - k,
    {
        out.push(r[k]);
        k += 1;
        assert(r@.take(k as int) == r@.take(k - 1).push(r@[k - 1]));
    }
    assert(r@.take(r.len() as int) =~= r@);
    assert(out@ =~= resolve(b@, r@));
    string_of(&out)
}

/// Whether `path` is `base` or leads through it.
pub fn path_leads_into(path: &str, base: &str) -> (yes: bool)
    ensures
        yes == leads_into(path@, base@),
{
    let p = chars_of(path);
    let b = chars_of(base);
    if b.len() == 0 || !crate::text::begins_with(&p, &b) {
        return false;
    }
    p.len() == b.len() || b[b.len() - 1] == '/' || p[b.len()] == '/'
}

} // verus!
