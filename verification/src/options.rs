//! The options file: a text of `key:value` lines, read as a mapping, merged
//! across the instances, and written back.
//!
//! The mapping keeps its keys in the order in which they first came in, and
//! that is the order of the lines written back.

use vstd::prelude::*;
use crate::text::{chars_of, find_char, index_of, same_chars, slice_string};

verus! {

/// The entries of an options mapping: pairs of key and value, no key twice.
pub type Entries = Seq<(Seq<char>, Seq<char>)>;

/// The position of the entry with `key`, or the length where there is none.
pub open spec fn key_index(entries: Entries, key: Seq<char>) -> int
    decreases entries.len(),
{
    if entries.len() == 0 {
        0
    } else if entries[0].0 == key {
        0
    } else {
        1 + key_index(entries.drop_first(), key)
    }
}

/// Whether `entries` has an entry with `key`.
pub open spec fn has_key(entries: Entries, key: Seq<char>) -> bool {
    key_index(entries, key) < entries.len()
}

/// The value of `key`; meaningful only where `entries` has the key.
pub open spec fn value_of(entries: Entries, key: Seq<char>) -> Seq<char> {
    entries[key_index(entries, key)].1
}

/// `entries` with `key` set to `value`: in place where the key is there
/// already, at the end where it is new.
pub open spec fn put(entries: Entries, key: Seq<char>, value: Seq<char>) -> Entries {
    let i = key_index(entries, key);
    if 0 <= i < entries.len() {
        entries.update(i, (key, value))
    } else {
        entries.push((key, value))
    }
}

/// `entries` without the entry of `key`.
pub open spec fn without(entries: Entries, key: Seq<char>) -> Entries {
    let i = key_index(entries, key);
    if 0 <= i < entries.len() {
        entries.remove(i)
    } else {
        entries
    }
}

/// `entries` with each entry of `more` put into it, in order: a key of
/// `more` takes the value it has there.
pub open spec fn merged_into(entries: Entries, more: Entries) -> Entries
    decreases more.len(),
{
    if more.len() == 0 {
        entries
    } else {
        merged_into(put(entries, more[0].0, more[0].1), more.drop_first())
    }
}

/// Whether no key occurs twice.
pub open spec fn distinct_keys(entries: Entries) -> bool {
    forall|i: int, j: int|
        0 <= i < entries.len() && 0 <= j < entries.len() && i != j ==> (#[trigger] entries[i]).0 != (
        #[trigger] entries[j]).0
}

/// `key_index` lies within the entries, no entry before it has the key, and
/// the entry it points at has it.
pub proof fn lemma_key_index(entries: Entries, key: Seq<char>)
    ensures
        0 <= key_index(entries, key) <= entries.len(),
        forall|k: int| 0 <= k < key_index(entries, key) ==> (#[trigger] entries[k]).0 != key,
        key_index(entries, key) < entries.len() ==> entries[key_index(entries, key)].0 == key,
    decreases entries.len(),
{
    if entries.len() > 0 && entries[0].0 != key {
        let rest = entries.drop_first();
        lemma_key_index(rest, key);
        assert forall|k: int| 0 <= k < key_index(entries, key) implies (#[trigger] entries[k]).0
            != key by {
            if k > 0 {
                assert(entries[k] == rest[k - 1]);
            }
        }
    }
}

/// A position that no entry with the key precedes, and that is the end or
/// holds the key, is `key_index`.
pub proof fn lemma_key_index_is(entries: Entries, key: Seq<char>, i: int)
    requires
        0 <= i <= entries.len(),
        forall|k: int| 0 <= k < i ==> (#[trigger] entries[k]).0 != key,
        i < entries.len() ==> entries[i].0 == key,
    ensures
        key_index(entries, key) == i,
{
    lemma_key_index(entries, key);
    let j = key_index(entries, key);
    if j < i {
        assert(entries[j].0 == key);
    } else if i < j {
        assert(entries[i].0 == key);
    }
}

/// The whitespace that is trimmed from a line.
pub open spec fn is_space(c: char) -> bool {
    c == ' ' || c == '\t' || c == '\n' || c == '\x0C' || c == '\r'
}

/// `s` without the whitespace it begins with.
pub open spec fn trim_start(s: Seq<char>) -> Seq<char>
    decreases s.len(),
{
    if s.len() > 0 && is_space(s[0]) {
        trim_start(s.drop_first())
    } else {
        s
    }
}

/// `s` without the whitespace it ends with.
pub open spec fn trim_end(s: Seq<char>) -> Seq<char>
    decreases s.len(),
{
    if s.len() > 0 && is_space(s.last()) {
        trim_end(s.drop_last())
    } else {
        s
    }
}

/// `s` without the whitespace around it.
pub open spec fn trimmed(s: Seq<char>) -> Seq<char> {
    trim_end(trim_start(s))
}

/// `entries` after one line: a line that holds a colon, once trimmed, sets
/// the key before its first colon to the value after it; any other line is
/// passed over.
pub open spec fn put_line(entries: Entries, line: Seq<char>) -> Entries {
    let t = trimmed(line);
    let i = index_of(t, ':');
    if 0 <= i < t.len() {
        put(entries, t.take(i), t.skip(i + 1))
    } else {
        entries
    }
}

/// `entries` after the lines of `text`, which are separated by line feeds.
pub open spec fn absorb(entries: Entries, text: Seq<char>) -> Entries
    decreases text.len(),
{
    let i = index_of(text, '\n');
    let next = put_line(entries, text.take(i));
    if 0 <= i < text.len() {
        absorb(next, text.skip(i + 1))
    } else {
        next
    }
}

/// The mapping that a file's text holds; a file that could not be read holds
/// nothing.
pub open spec fn parsed(text: Option<Seq<char>>) -> Entries {
    match text {
        Some(t) => absorb(Seq::empty(), t),
        None => Seq::empty(),
    }
}

/// The text of a mapping: for each entry, in order, the key, a colon, the
/// value and a line feed.
pub open spec fn rendered(entries: Entries) -> Seq<char>
    decreases entries.len(),
{
    if entries.len() == 0 {
        Seq::empty()
    } else {
        rendered(entries.drop_last()) + entries.last().0 + seq![':'] + entries.last().1 + seq!['\n']
    }
}

/// Where the first `k` characters are whitespace and the next is not,
/// trimming the start drops exactly those `k`.
proof fn lemma_trim_start(s: Seq<char>, k: int)
    requires
        0 <= k <= s.len(),
        forall|j: int| 0 <= j < k ==> is_space(#[trigger] s[j]),
        k < s.len() ==> !is_space(s[k]),
    ensures
        trim_start(s) == s.skip(k),
    decreases k,
{
    if k == 0 {
        assert(s.skip(0) =~= s);
    } else {
        let rest = s.drop_first();
        assert forall|j: int| 0 <= j < k - 1 implies is_space(#[trigger] rest[j]) by {
            assert(rest[j] == s[j + 1]);
        }
        lemma_trim_start(rest, k - 1);
        assert(rest.skip(k - 1) =~= s.skip(k));
    }
}

/// Where the characters from `k` on are whitespace and the one before is
/// not, trimming the end keeps exactly the first `k`.
proof fn lemma_trim_end(s: Seq<char>, k: int)
    requires
        0 <= k <= s.len(),
        forall|j: int| k <= j < s.len() ==> is_space(#[trigger] s[j]),
        k > 0 ==> !is_space(s[k - 1]),
    ensures
        trim_end(s) == s.take(k),
    decreases s.len() - k,
{
    if k == s.len() {
        assert(s.take(k) =~= s);
    } else {
        let rest = s.drop_last();
        lemma_trim_end(rest, k);
        assert(rest.take(k) =~= s.take(k));
    }
}

/// One entry of an options mapping.
#[derive(Debug)]
pub struct Entry {
    pub key: String,
    pub value: String,
}

/// The contents of a list of entries.
pub open spec fn entries_of(list: Seq<Entry>) -> Entries {
    Seq::new(list.len(), |i: int| (list[i].key@, list[i].value@))
}

/// An options mapping.
#[derive(Debug)]
pub struct Options {
    entries: Vec<Entry>,
}

impl View for Options {
    type V = Entries;

    /// The entries, in the order in which their keys first came in.
    closed spec fn view(&self) -> Entries {
        entries_of(self.entries@)
    }
}

/// Whether `c` is whitespace that is trimmed from a line.
fn space(c: char) -> (yes: bool)
    ensures
        yes == is_space(c),
{
    c == ' ' || c == '\t' || c == '\n' || c == '\x0C' || c == '\r'
}

/// The bounds of `v[from..to]` without the whitespace around it.
fn trim_range(v: &Vec<char>, from: usize, to: usize) -> (bounds: (usize, usize))
    requires
        from <= to <= v.len(),
    ensures
        from <= bounds.0 <= bounds.1 <= to,
        trimmed(v@.subrange(from as int, to as int)) == v@.subrange(
            bounds.0 as int,
            bounds.1 as int,
        ),
{
    let ghost line = v@.subrange(from as int, to as int);
    let mut a: usize = from;
    while a < to && space(v[a])
        invariant
            from <= a <= to <= v.len(),
            forall|j: int| from <= j < a ==> is_space(#[trigger] v@[j]),
        decreases to - a,
    {
        a += 1;
    }
    let mut b: usize = to;
    while b > a && space(v[b - 1])
        invariant
            a <= b <= to <= v.len(),
            forall|j: int| b <= j < to ==> is_space(#[trigger] v@[j]),
        decreases b,
    {
        b -= 1;
    }
    proof {
        assert forall|j: int| 0 <= j < a - from implies is_space(#[trigger] line[j]) by {
            assert(line[j] == v@[from + j]);
        }
        lemma_trim_start(line, a - from);
        let started = line.skip(a - from);
        assert(started =~= v@.subrange(a as int, to as int));
        assert forall|j: int| b - a <= j < started.len() implies is_space(#[trigger] started[j]) by {
            assert(started[j] == v@[a + j]);
        }
        lemma_trim_end(started, b - a);
        assert(started.take(b - a) =~= v@.subrange(a as int, b as int));
    }
    (a, b)
}

/// `text` without the whitespace around it.
pub fn trim(text: &str) -> (out: String)
    ensures
        out@ == trimmed(text@),
{
    let v = chars_of(text);
    assert(v@.subrange(0, v.len() as int) =~= v@);
    let (a, b) = trim_range(&v, 0, v.len());
    slice_string(&v, a, b)
}

impl Options {
    /// The empty mapping.
    pub fn new() -> (options: Options)
        ensures
            options@ == Seq::<(Seq<char>, Seq<char>)>::empty(),
    {
        let options = Options { entries: Vec::new() };
        assert(options@ =~= Seq::<(Seq<char>, Seq<char>)>::empty());
        options
    }

    /// The number of entries.
    pub fn len(&self) -> (n: usize)
        ensures
            n == self@.len(),
    {
        self.entries.len()
    }

    /// The entry at position `i`.
    pub fn entry(&self, i: usize) -> (entry: &Entry)
        requires
            i < self@.len(),
        ensures
            (entry.key@, entry.value@) == self@[i as int],
    {
        &self.entries[i]
    }

    /// The position of the entry with `key`, or the number of entries where
    /// there is none.
    fn position(&self, key: &Vec<char>) -> (at: usize)
        ensures
            at == key_index(self@, key@),
            at <= self@.len(),
    {
        let mut i: usize = 0;
        while i < self.entries.len()
            invariant
                i <= self.entries.len(),
                forall|k: int| 0 <= k < i ==> (#[trigger] self@[k]).0 != key@,
            decreases self.entries.len() - i,
        {
            let here = chars_of(self.entries[i].key.as_str());
            assert(here@ == self@[i as int].0);
            if same_chars(&here, key) {
                proof {
                    lemma_key_index_is(self@, key@, i as int);
                }
                return i;
            }
            i += 1;
        }
        proof {
            lemma_key_index_is(self@, key@, i as int);
        }
        i
    }

    /// The value of `key`, if the mapping has the key.
    pub fn get(&self, key: &str) -> (value: Option<&String>)
        ensures
            value is Some == has_key(self@, key@),
            value matches Some(v) ==> v@ == value_of(self@, key@),
    {
        let k = chars_of(key);
        let at = self.position(&k);
        if at < self.entries.len() {
            assert(self@[at as int].1 == self.entries@[at as int].value@);
            Some(&self.entries[at].value)
        } else {
            None
        }
    }

    /// Sets `key` to `value`.
    pub fn insert(&mut self, key: String, value: String)
        ensures
            final(self)@ == put(old(self)@, key@, value@),
    {
        let k = chars_of(key.as_str());
        let at = self.position(&k);
        let ghost before = self@;
        if at < self.entries.len() {
            self.entries.set(at, Entry { key, value });
            assert(self@ =~= before.update(at as int, (key@, value@)));
        } else {
            self.entries.push(Entry { key, value });
            assert(self@ =~= before.push((key@, value@)));
        }
    }

    /// Removes the entry of `key`, if there is one.
    pub fn remove(&mut self, key: &str)
        ensures
            final(self)@ == without(old(self)@, key@),
    {
        let k = chars_of(key);
        let at = self.position(&k);
        let ghost before = self@;
        if at < self.entries.len() {
            self.entries.remove(at);
            assert(self@ =~= before.remove(at as int));
        }
    }

    /// Puts each entry of `more` into the mapping, in order.
    pub fn merge_from(&mut self, more: &Options)
        ensures
            final(self)@ == merged_into(old(self)@, more@),
    {
        let mut i: usize = 0;
        assert(more@.skip(0) =~= more@);
        while i < more.entries.len()
            invariant
                i <= more.entries.len(),
                merged_into(old(self)@, more@) == merged_into(self@, more@.skip(i as int)),
            decreases more.entries.len() - i,
        {
            let ghost rest = more@.skip(i as int);
            assert(rest[0] == more@[i as int]);
            assert(rest.drop_first() =~= more@.skip(i + 1));
            let entry = &more.entries[i];
            self.insert(entry.key.clone(), entry.value.clone());
            i += 1;
        }
    }

    /// Takes in the line `v[from..to]`.
    fn take_line(&mut self, v: &Vec<char>, from: usize, to: usize)
        requires
            from <= to <= v.len(),
        ensures
            final(self)@ == put_line(old(self)@, v@.subrange(from as int, to as int)),
    {
        let (a, b) = trim_range(v, from, to);
        let colon = find_char(v, a, b, ':');
        if colon < b {
            let key = slice_string(v, a, colon);
            let value = slice_string(v, colon + 1, b);
            proof {
                let t = v@.subrange(a as int, b as int);
                assert(t.take(colon - a) =~= v@.subrange(a as int, colon as int));
                assert(t.skip(colon - a + 1) =~= v@.subrange(colon + 1, b as int));
            }
            self.insert(key, value);
        }
    }

    /// The mapping that `text` holds.
    pub fn parse(text: &str) -> (options: Options)
        ensures
            options@ == parsed(Some(text@)),
    {
        let v = chars_of(text);
        let mut options = Options::new();
        let mut start: usize = 0;
        assert(v@.skip(0) =~= v@);
        loop
            invariant_except_break
                start <= v.len(),
                parsed(Some(v@)) == absorb(options@, v@.skip(start as int)),
            ensures
                options@ == parsed(Some(v@)),
            decreases v.len() - start,
        {
            let end = find_char(&v, start, v.len(), '\n');
            proof {
                let tail = v@.skip(start as int);
                assert(v@.subrange(start as int, v.len() as int) =~= tail);
                assert(tail.take(end - start) =~= v@.subrange(start as int, end as int));
                if end < v.len() {
                    assert(tail.skip(end - start + 1) =~= v@.skip(end + 1));
                }
            }
            options.take_line(&v, start, end);
            if end >= v.len() {
                break;
            }
            start = end + 1;
        }
        options
    }

    /// The text of the mapping.
    pub fn render(&self) -> (text: String)
        ensures
            text@ == rendered(self@),
    {
        let mut out: Vec<char> = Vec::new();
        let mut i: usize = 0;
        assert(self@.take(0) =~= Seq::<(Seq<char>, Seq<char>)>::empty());
        while i < self.entries.len()
            invariant
                i <= self.entries.len(),
                out@ == rendered(self@.take(i as int)),
            decreases self.entries.len() - i,
        {
            let ghost before = out@;
            let key = chars_of(self.entries[i].key.as_str());
            let value = chars_of(self.entries[i].value.as_str());
            append_chars(&mut out, &key);
            out.push(':');
            append_chars(&mut out, &value);
            out.push('\n');
            proof {
                let upto = self@.take(i + 1);
                assert(upto.drop_last() =~= self@.take(i as int));
                assert(upto.last() == (key@, value@));
                assert(out@ =~= before + key@ + seq![':'] + value@ + seq!['\n']);
            }
            i += 1;
        }
        assert(self@.take(self.entries.len() as int) =~= self@);
        crate::text::string_of(&out)
    }
}

/// Appends the characters of `more` to `out`.
fn append_chars(out: &mut Vec<char>, more: &Vec<char>)
    ensures
        final(out)@ == old(out)@ + more@,
{
    let mut i: usize = 0;
    assert(more@.take(0) =~= Seq::<char>::empty());
    while i < more.len()
        invariant
            i <= more.len(),
            out@ == old(out)@ + more@.take(i as int),
        decreases more.len() - i,
    {
        out.push(more[i]);
        i += 1;
        assert(more@.take(i as int) =~= more@.take(i - 1).push(more@[i - 1]));
    }
    assert(more@.take(more.len() as int) =~= more@);
}

/// The mapping that a file holds, from its text or from the fact that it
/// could not be read.
pub fn read_options_txt(text: Option<&str>) -> (options: Options)
    ensures
        options@ == parsed(opt_str(text)),
{
    match text {
        Some(t) => Options::parse(t),
        None => Options::new(),
    }
}

/// The text of an optional string slice.
pub open spec fn opt_str(text: Option<&str>) -> Option<Seq<char>> {
    match text {
        Some(t) => Some(t@),
        None => None,
    }
}

/// The text of the mapping `values`.
pub fn create_options_txt(values: &Options) -> (text: String)
    ensures
        text@ == rendered(values@),
{
    values.render()
}

/// One instance's copy of the options file.
#[derive(Debug)]
pub struct OptionsCopy {
    /// The path of the copy.
    pub path: String,
    /// The later of its creation and modification time; the epoch where the
    /// file is missing.
    pub stamp: u128,
    /// Its text, if it could be read.
    pub content: Option<String>,
}

/// The mathematical content of an `OptionsCopy`.
pub struct CopyModel {
    pub path: Seq<char>,
    pub stamp: u128,
    pub content: Option<Seq<char>>,
}

impl View for OptionsCopy {
    type V = CopyModel;

    open spec fn view(&self) -> CopyModel {
        CopyModel { path: self.path@, stamp: self.stamp, content: crate::text::opt_text(self.content) }
    }
}

/// The contents of a list of copies.
pub open spec fn copies_of(list: Seq<OptionsCopy>) -> Seq<CopyModel> {
    Seq::new(list.len(), |i: int| list[i]@)
}

/// `sorted` with `copy` put behind every copy that is not younger than it.
pub open spec fn placed(sorted: Seq<CopyModel>, copy: CopyModel) -> Seq<CopyModel>
    decreases sorted.len(),
{
    if sorted.len() > 0 && sorted.last().stamp > copy.stamp {
        placed(sorted.drop_last(), copy).push(sorted.last())
    } else {
        sorted.push(copy)
    }
}

/// The copies from oldest to youngest; copies of one age stay in the order
/// in which they came.
pub open spec fn by_stamp(copies: Seq<CopyModel>) -> Seq<CopyModel>
    decreases copies.len(),
{
    if copies.len() == 0 {
        Seq::empty()
    } else {
        placed(by_stamp(copies.drop_last()), copies.last())
    }
}

/// Whether each copy is at least as old as those after it.
pub open spec fn oldest_first(copies: Seq<CopyModel>) -> bool {
    forall|i: int, j: int|
        0 <= i < j < copies.len() ==> (#[trigger] copies[i]).stamp <= (#[trigger] copies[j]).stamp
}

/// The two keys that only the current instance may contribute.
pub open spec fn resource_pack_key() -> Seq<char> {
    "resourcePacks"@
}

/// See `resource_pack_key`.
pub open spec fn incompatible_resource_pack_key() -> Seq<char> {
    "incompatibleResourcePacks"@
}

/// What a copy contributes to the merge: all that it holds where it is the
/// current instance's copy, and all but the two resource pack keys where it
/// is another's.
pub open spec fn contribution(copy: CopyModel, current: Seq<char>) -> Entries {
    let held = parsed(copy.content);
    if copy.path == current {
        held
    } else {
        without(without(held, resource_pack_key()), incompatible_resource_pack_key())
    }
}

/// `entries` with the contributions of `copies` merged into it, one after
/// the other.
pub open spec fn fold_copies(entries: Entries, copies: Seq<CopyModel>, current: Seq<char>) -> Entries
    decreases copies.len(),
{
    if copies.len() == 0 {
        entries
    } else {
        fold_copies(
            merged_into(entries, contribution(copies[0], current)),
            copies.drop_first(),
            current,
        )
    }
}

/// The merged options: the fallback file's mapping, with the contribution of
/// every instance's copy merged into it from the oldest copy to the
/// youngest. Where the instances could not be listed, it is the fallback
/// file's mapping.
pub open spec fn combined(
    fallback: Option<Seq<char>>,
    current: Seq<char>,
    copies: Option<Seq<CopyModel>>,
) -> Entries {
    match copies {
        Some(list) => fold_copies(parsed(fallback), by_stamp(list), current),
        None => parsed(fallback),
    }
}

/// Putting a copy at a position that only younger copies follow, and that no
/// younger copy precedes, is `placed`.
proof fn lemma_placed_at(sorted: Seq<CopyModel>, copy: CopyModel, at: int)
    requires
        0 <= at <= sorted.len(),
        forall|k: int| at <= k < sorted.len() ==> (#[trigger] sorted[k]).stamp > copy.stamp,
        at > 0 ==> sorted[at - 1].stamp <= copy.stamp,
    ensures
        placed(sorted, copy) == sorted.insert(at, copy),
    decreases sorted.len() - at,
{
    if at == sorted.len() {
        assert(sorted.insert(at, copy) =~= sorted.push(copy));
    } else {
        let shorter = sorted.drop_last();
        assert forall|k: int| at <= k < shorter.len() implies (#[trigger] shorter[k]).stamp
            > copy.stamp by {
            assert(shorter[k] == sorted[k]);
        }
        lemma_placed_at(shorter, copy, at);
        assert(shorter.insert(at, copy).push(sorted.last()) =~= sorted.insert(at, copy));
    }
}

/// Placing a copy keeps the order from oldest to youngest.
pub proof fn lemma_placed_ordered(sorted: Seq<CopyModel>, copy: CopyModel)
    requires
        oldest_first(sorted),
    ensures
        oldest_first(placed(sorted, copy)),
        placed(sorted, copy).len() == sorted.len() + 1,
        placed(sorted, copy).to_multiset() == sorted.to_multiset().insert(copy),
    decreases sorted.len(),
{
    broadcast use vstd::seq_lib::group_to_multiset_ensures;

    if sorted.len() > 0 && sorted.last().stamp > copy.stamp {
        let shorter = sorted.drop_last();
        assert(oldest_first(shorter)) by {
            assert forall|i: int, j: int| 0 <= i < j < shorter.len() implies (
            #[trigger] shorter[i]).stamp <= (#[trigger] shorter[j]).stamp by {
                assert(shorter[i] == sorted[i] && shorter[j] == sorted[j]);
            }
        }
        lemma_placed_ordered(shorter, copy);
        let inner = placed(shorter, copy);
        let out = inner.push(sorted.last());
        assert(sorted =~= shorter.push(sorted.last()));
        assert forall|i: int, j: int| 0 <= i < j < out.len() implies (#[trigger] out[i]).stamp <= (
        #[trigger] out[j]).stamp by {
            if j < inner.len() {
                assert(out[i] == inner[i] && out[j] == inner[j]);
            } else {
                assert(out[i] == inner[i]);
                assert(inner.to_multiset().count(inner[i]) > 0);
                if inner[i] != copy {
                    assert(shorter.to_multiset().count(inner[i]) > 0);
                    assert(shorter.contains(inner[i]));
                    let k = choose|k: int| 0 <= k < shorter.len() && shorter[k] == inner[i];
                    assert(sorted[k].stamp <= sorted[sorted.len() - 1].stamp);
                }
            }
        }
        assert(out.to_multiset() =~= sorted.to_multiset().insert(copy));
    } else {
        let out = sorted.push(copy);
        assert forall|i: int, j: int| 0 <= i < j < out.len() implies (#[trigger] out[i]).stamp <= (
        #[trigger] out[j]).stamp by {
            if j < sorted.len() {
                assert(out[i] == sorted[i] && out[j] == sorted[j]);
            } else if sorted.len() > 0 {
                assert(out[i] == sorted[i]);
                assert(sorted[i].stamp <= sorted[sorted.len() - 1].stamp || i == sorted.len() - 1);
            }
        }
    }
}

/// The sorted copies run from oldest to youngest and are the copies given,
/// each as often as it was given.
pub proof fn lemma_by_stamp_ordered(copies: Seq<CopyModel>)
    ensures
        oldest_first(by_stamp(copies)),
        by_stamp(copies).len() == copies.len(),
        by_stamp(copies).to_multiset() == copies.to_multiset(),
    decreases copies.len(),
{
    broadcast use vstd::seq_lib::group_to_multiset_ensures;

    if copies.len() > 0 {
        lemma_by_stamp_ordered(copies.drop_last());
        lemma_placed_ordered(by_stamp(copies.drop_last()), copies.last());
        assert(copies =~= copies.drop_last().push(copies.last()));
    } else {
        assert(by_stamp(copies).to_multiset() =~= copies.to_multiset());
    }
}

/// A copy of `copy`.
fn copy_of(copy: &OptionsCopy) -> (same: OptionsCopy)
    ensures
        same@ == copy@,
{
    OptionsCopy {
        path: copy.path.clone(),
        stamp: copy.stamp,
        content: match &copy.content {
            Some(text) => Some(text.clone()),
            None => None,
        },
    }
}

/// The copies from oldest to youngest; copies of one age stay in the order
/// in which they came.
pub fn sort_by_stamp(copies: &Vec<OptionsCopy>) -> (sorted: Vec<OptionsCopy>)
    ensures
        copies_of(sorted@) == by_stamp(copies_of(copies@)),
{
    let mut sorted: Vec<OptionsCopy> = Vec::new();
    let mut i: usize = 0;
    assert(copies_of(copies@).take(0) =~= Seq::<CopyModel>::empty());
    assert(copies_of(sorted@) =~= Seq::<CopyModel>::empty());
    while i < copies.len()
        invariant
            i <= copies.len(),
            sorted@.len() == i,
            copies_of(sorted@) == by_stamp(copies_of(copies@).take(i as int)),
        decreases copies.len() - i,
    {
        let stamp = copies[i].stamp;
        let mut at: usize = sorted.len();
        while at > 0 && sorted[at - 1].stamp > stamp
            invariant
                at <= sorted@.len(),
                forall|k: int| at <= k < sorted@.len() ==> (#[trigger] copies_of(sorted@)[k]).stamp
                    > stamp,
            decreases at,
        {
            at -= 1;
        }
        let ghost before = copies_of(sorted@);
        let copy = copy_of(&copies[i]);
        proof {
            let upto = copies_of(copies@).take(i + 1);
            assert(upto.drop_last() =~= copies_of(copies@).take(i as int));
            assert(upto.last() == copy@);
            if at > 0 {
                assert(before[at - 1].stamp <= stamp);
            }
            lemma_placed_at(before, copy@, at as int);
        }
        sorted.insert(at, copy);
        assert(copies_of(sorted@) =~= before.insert(at as int, copy@));
        i += 1;
    }
    assert(copies_of(copies@).take(copies.len() as int) =~= copies_of(copies@));
    sorted
}

/// The merged options mapping: see `combined`.
pub fn merge_options(
    fallback: Option<&str>,
    current: &str,
    copies: Option<&Vec<OptionsCopy>>,
) -> (options: Options)
    ensures
        options@ == combined(opt_str(fallback), current@, opt_copies(copies)),
{
    let mut values = read_options_txt(fallback);
    let Some(list) = copies else {
        return values;
    };
    let sorted = sort_by_stamp(list);
    let ghost start = values@;
    let ghost order = copies_of(sorted@);
    let mut i: usize = 0;
    assert(order.skip(0) =~= order);
    while i < sorted.len()
        invariant
            i <= sorted.len(),
            order == copies_of(sorted@),
            fold_copies(start, order, current@) == fold_copies(
                values@,
                order.skip(i as int),
                current@,
            ),
        decreases sorted.len() - i,
    {
        let copy = &sorted[i];
        let text: Option<&str> = match &copy.content {
            Some(t) => Some(t.as_str()),
            None => None,
        };
        let mut new_values = read_options_txt(text);
        if !crate::text::same_text(copy.path.as_str(), current) {
            new_values.remove("resourcePacks");
            new_values.remove("incompatibleResourcePacks");
        }
        proof {
            let rest = order.skip(i as int);
            assert(rest[0] == copy@);
            assert(rest.drop_first() =~= order.skip(i + 1));
            assert(new_values@ == contribution(copy@, current@));
        }
        values.merge_from(&new_values);
        i += 1;
    }
    values
}

/// The contents of an optional borrowed list of copies.
pub open spec fn opt_copies(copies: Option<&Vec<OptionsCopy>>) -> Option<Seq<CopyModel>> {
    match copies {
        Some(list) => Some(copies_of(list@)),
        None => None,
    }
}

} // verus!
