//! What holds of the options merge: a key takes its value from the last
//! copy that contributes it, and the resource pack keys come from no copy
//! but the current instance's.

use vstd::prelude::*;
use crate::options::{
    absorb, contribution, distinct_keys, fold_copies, has_key, incompatible_resource_pack_key,
    is_space, key_index, lemma_key_index, lemma_key_index_is, merged_into, parsed, put, put_line,
    by_stamp, combined, lemma_by_stamp_ordered, oldest_first, rendered, resource_pack_key,
    trim_end, trim_start, trimmed, value_of, without, CopyModel, Entries,
};
use crate::text::{has_char, index_of, lemma_index_of, lemma_index_of_is};

verus! {

/// Setting a key gives it the value, whether or not it had one, and leaves
/// every other key as it was. No key comes to occur twice.
pub proof fn lemma_put(entries: Entries, key: Seq<char>, value: Seq<char>, other: Seq<char>)
    requires
        distinct_keys(entries),
    ensures
        distinct_keys(put(entries, key, value)),
        has_key(put(entries, key, value), key),
        value_of(put(entries, key, value), key) == value,
        other != key ==> has_key(put(entries, key, value), other) == has_key(entries, other),
        other != key && has_key(entries, other) ==> value_of(put(entries, key, value), other)
            == value_of(entries, other),
{
    let out = put(entries, key, value);
    let i = key_index(entries, key);
    lemma_key_index(entries, key);
    lemma_key_index(entries, other);
    let j = key_index(entries, other);
    if i < entries.len() {
        assert(out[i] == (key, value));
        assert forall|k: int| 0 <= k < i implies (#[trigger] out[k]).0 != key by {
            assert(out[k] == entries[k]);
        }
        lemma_key_index_is(out, key, i);
        assert forall|a: int, b: int|
            0 <= a < out.len() && 0 <= b < out.len() && a != b implies (#[trigger] out[a]).0 != (
        #[trigger] out[b]).0 by {
            assert(out[a].0 == entries[a].0 && out[b].0 == entries[b].0);
        }
        if other != key {
            assert forall|k: int| 0 <= k < j implies (#[trigger] out[k]).0 != other by {
                assert(out[k].0 == entries[k].0);
            }
            if j < entries.len() {
                assert(out[j] == entries[j]);
            }
            lemma_key_index_is(out, other, j);
        }
    } else {
        assert(out[entries.len() as int] == (key, value));
        assert forall|k: int| 0 <= k < entries.len() implies (#[trigger] out[k]).0 != key by {
            assert(out[k] == entries[k]);
        }
        lemma_key_index_is(out, key, entries.len() as int);
        assert forall|a: int, b: int|
            0 <= a < out.len() && 0 <= b < out.len() && a != b implies (#[trigger] out[a]).0 != (
        #[trigger] out[b]).0 by {
            if a < entries.len() {
                assert(out[a] == entries[a]);
            }
            if b < entries.len() {
                assert(out[b] == entries[b]);
            }
        }
        if other != key {
            assert forall|k: int| 0 <= k < j implies (#[trigger] out[k]).0 != other by {
                assert(out[k] == entries[k]);
            }
            if j < entries.len() {
                assert(out[j] == entries[j]);
                lemma_key_index_is(out, other, j);
            } else {
                lemma_key_index_is(out, other, out.len() as int);
            }
        }
    }
}

/// Removing a key leaves the mapping without it and every other key as it
/// was.
pub proof fn lemma_without(entries: Entries, key: Seq<char>, other: Seq<char>)
    requires
        distinct_keys(entries),
    ensures
        distinct_keys(without(entries, key)),
        !has_key(without(entries, key), key),
        other != key ==> has_key(without(entries, key), other) == has_key(entries, other),
        other != key && has_key(entries, other) ==> value_of(without(entries, key), other)
            == value_of(entries, other),
{
    let out = without(entries, key);
    let i = key_index(entries, key);
    lemma_key_index(entries, key);
    lemma_key_index(entries, other);
    let j = key_index(entries, other);
    if i < entries.len() {
        assert forall|k: int| 0 <= k < out.len() implies #[trigger] out[k] == entries[if k < i {
            k
        } else {
            k + 1
        }] by {}
        assert forall|k: int| 0 <= k < out.len() implies (#[trigger] out[k]).0 != key by {
            let from = if k < i {
                k
            } else {
                k + 1
            };
            assert(out[k] == entries[from]);
            assert(entries[from].0 != entries[i].0);
        }
        lemma_key_index_is(out, key, out.len() as int);
        assert forall|a: int, b: int|
            0 <= a < out.len() && 0 <= b < out.len() && a != b implies (#[trigger] out[a]).0 != (
        #[trigger] out[b]).0 by {
            let fa = if a < i {
                a
            } else {
                a + 1
            };
            let fb = if b < i {
                b
            } else {
                b + 1
            };
            assert(out[a] == entries[fa] && out[b] == entries[fb]);
        }
        if other != key {
            let to = if j < i {
                j
            } else {
                j - 1
            };
            assert(j != i);
            assert forall|k: int| 0 <= k < to implies (#[trigger] out[k]).0 != other by {
                let from = if k < i {
                    k
                } else {
                    k + 1
                };
                assert(out[k] == entries[from]);
                assert(from < j);
            }
            if j < entries.len() {
                assert(out[to] == entries[j]);
            }
            lemma_key_index_is(out, other, to);
        }
    } else {
        lemma_key_index_is(out, key, out.len() as int);
    }
}

/// Merging takes every key of `more` with the value it has there, and keeps
/// every other key of the mapping as it was.
pub proof fn lemma_merged_into(entries: Entries, more: Entries, key: Seq<char>)
    requires
        distinct_keys(entries),
        distinct_keys(more),
    ensures
        distinct_keys(merged_into(entries, more)),
        has_key(merged_into(entries, more), key) == (has_key(entries, key) || has_key(more, key)),
        has_key(more, key) ==> value_of(merged_into(entries, more), key) == value_of(more, key),
        !has_key(more, key) && has_key(entries, key) ==> value_of(merged_into(entries, more), key)
            == value_of(entries, key),
    decreases more.len(),
{
    lemma_key_index(more, key);
    if more.len() > 0 {
        let first = more[0];
        let rest = more.drop_first();
        let next = put(entries, first.0, first.1);
        lemma_put(entries, first.0, first.1, key);
        assert forall|a: int, b: int|
            0 <= a < rest.len() && 0 <= b < rest.len() && a != b implies (#[trigger] rest[a]).0 != (
        #[trigger] rest[b]).0 by {
            assert(rest[a] == more[a + 1] && rest[b] == more[b + 1]);
        }
        lemma_merged_into(next, rest, key);
        lemma_key_index(rest, key);
        if first.0 == key {
            assert forall|k: int| 0 <= k < rest.len() implies (#[trigger] rest[k]).0 != key by {
                assert(rest[k] == more[k + 1]);
                assert(more[k + 1].0 != more[0].0);
            }
            lemma_key_index_is(rest, key, rest.len() as int);
        } else {
            assert(key_index(more, key) == 1 + key_index(rest, key));
            if has_key(more, key) {
                assert(rest[key_index(rest, key)] == more[key_index(more, key)]);
            }
        }
    }
}

/// A mapping read from text holds no key twice.
pub proof fn lemma_absorb_distinct(entries: Entries, text: Seq<char>)
    requires
        distinct_keys(entries),
    ensures
        distinct_keys(absorb(entries, text)),
    decreases text.len(),
{
    let i = crate::text::index_of(text, '\n');
    crate::text::lemma_index_of(text, '\n');
    let line = text.take(i);
    let next = put_line(entries, line);
    let t = crate::options::trimmed(line);
    let colon = crate::text::index_of(t, ':');
    if 0 <= colon < t.len() {
        lemma_put(entries, t.take(colon), t.skip(colon + 1), t.take(colon));
    }
    if 0 <= i < text.len() {
        lemma_absorb_distinct(next, text.skip(i + 1));
    }
}

/// What a copy contributes holds no key twice, and the copy of another
/// instance than the current one contributes neither resource pack key.
pub proof fn lemma_contribution(copy: CopyModel, current: Seq<char>)
    ensures
        distinct_keys(contribution(copy, current)),
        copy.path != current ==> !has_key(contribution(copy, current), resource_pack_key())
            && !has_key(contribution(copy, current), incompatible_resource_pack_key()),
{
    let held = parsed(copy.content);
    assert(distinct_keys(Seq::<(Seq<char>, Seq<char>)>::empty()));
    if let Some(text) = copy.content {
        lemma_absorb_distinct(Seq::empty(), text);
    }
    let first = without(held, resource_pack_key());
    lemma_without(held, resource_pack_key(), incompatible_resource_pack_key());
    lemma_without(first, incompatible_resource_pack_key(), resource_pack_key());
    assert(resource_pack_key() != incompatible_resource_pack_key()) by {
        reveal_strlit("resourcePacks");
        reveal_strlit("incompatibleResourcePacks");
        assert(resource_pack_key().len() != incompatible_resource_pack_key().len());
    }
}

/// In the merge the last copy that contributes a key decides its value: a
/// key takes the value it has in the contribution of the copy at `at`, if
/// no later copy contributes the key.
pub proof fn lemma_last_copy_decides(
    entries: Entries,
    copies: Seq<CopyModel>,
    current: Seq<char>,
    key: Seq<char>,
    at: int,
)
    requires
        distinct_keys(entries),
        0 <= at < copies.len(),
        has_key(contribution(copies[at], current), key),
        forall|later: int|
            at < later < copies.len() ==> !has_key(
                contribution(#[trigger] copies[later], current),
                key,
            ),
    ensures
        has_key(fold_copies(entries, copies, current), key),
        value_of(fold_copies(entries, copies, current), key) == value_of(
            contribution(copies[at], current),
            key,
        ),
    decreases copies.len(),
{
    let first = contribution(copies[0], current);
    let next = merged_into(entries, first);
    let rest = copies.drop_first();
    lemma_contribution(copies[0], current);
    lemma_merged_into(entries, first, key);
    if at == 0 {
        assert forall|later: int| 0 <= later < rest.len() implies !has_key(
            contribution(#[trigger] rest[later], current),
            key,
        ) by {
            assert(rest[later] == copies[later + 1]);
        }
        lemma_untouched_key_stays(next, rest, current, key);
    } else {
        assert(rest[at - 1] == copies[at]);
        assert forall|later: int| at - 1 < later < rest.len() implies !has_key(
            contribution(#[trigger] rest[later], current),
            key,
        ) by {
            assert(rest[later] == copies[later + 1]);
        }
        lemma_last_copy_decides(next, rest, current, key, at - 1);
    }
}

/// A key that no copy contributes stays in the merge as it was in the
/// mapping that the merge started from.
pub proof fn lemma_untouched_key_stays(
    entries: Entries,
    copies: Seq<CopyModel>,
    current: Seq<char>,
    key: Seq<char>,
)
    requires
        distinct_keys(entries),
        forall|i: int|
            0 <= i < copies.len() ==> !has_key(contribution(#[trigger] copies[i], current), key),
    ensures
        distinct_keys(fold_copies(entries, copies, current)),
        has_key(fold_copies(entries, copies, current), key) == has_key(entries, key),
        has_key(entries, key) ==> value_of(fold_copies(entries, copies, current), key) == value_of(
            entries,
            key,
        ),
    decreases copies.len(),
{
    if copies.len() > 0 {
        let first = contribution(copies[0], current);
        let next = merged_into(entries, first);
        let rest = copies.drop_first();
        lemma_contribution(copies[0], current);
        lemma_merged_into(entries, first, key);
        assert forall|i: int| 0 <= i < rest.len() implies !has_key(
            contribution(#[trigger] rest[i], current),
            key,
        ) by {
            assert(rest[i] == copies[i + 1]);
        }
        lemma_untouched_key_stays(next, rest, current, key);
    } else {
    }
}

/// The line that an entry is written as, without the line feed.
pub open spec fn line_of(entry: (Seq<char>, Seq<char>)) -> Seq<char> {
    entry.0 + seq![':'] + entry.1
}

/// Whether an entry can be read back from its line: the key holds no colon,
/// the line holds no line feed, and trimming leaves the line as it is.
pub open spec fn readable(entry: (Seq<char>, Seq<char>)) -> bool {
    &&& !has_char(entry.0, ':')
    &&& !has_char(line_of(entry), '\n')
    &&& trimmed(line_of(entry)) == line_of(entry)
}

/// Whether every entry can be read back from its line.
pub open spec fn all_readable(entries: Entries) -> bool {
    forall|i: int| 0 <= i < entries.len() ==> readable(#[trigger] entries[i])
}

/// Trimming the start drops a number of characters from the start, and
/// what is left does not begin with whitespace.
proof fn lemma_trim_start_shape(s: Seq<char>)
    ensures
        exists|k: int| 0 <= k <= s.len() && trim_start(s) == #[trigger] s.skip(k),
        trim_start(s).len() > 0 ==> !is_space(trim_start(s)[0]),
    decreases s.len(),
{
    if s.len() > 0 && is_space(s[0]) {
        let rest = s.drop_first();
        lemma_trim_start_shape(rest);
        let k = choose|k: int| 0 <= k <= rest.len() && trim_start(rest) == #[trigger] rest.skip(k);
        assert(rest.skip(k) =~= s.skip(k + 1));
    } else {
        assert(s.skip(0) =~= s);
    }
}

/// Trimming the end drops a number of characters from the end, and what is
/// left does not end with whitespace.
proof fn lemma_trim_end_shape(s: Seq<char>)
    ensures
        exists|k: int| 0 <= k <= s.len() && trim_end(s) == #[trigger] s.take(k),
        trim_end(s).len() > 0 ==> !is_space(trim_end(s).last()),
    decreases s.len(),
{
    if s.len() > 0 && is_space(s.last()) {
        let rest = s.drop_last();
        lemma_trim_end_shape(rest);
        let k = choose|k: int| 0 <= k <= rest.len() && trim_end(rest) == #[trigger] rest.take(k);
        assert(rest.take(k) =~= s.take(k));
    } else {
        assert(s.take(s.len() as int) =~= s);
    }
}

/// A trimmed text is a stretch of the text, begins and ends with no
/// whitespace, and is left as it is by trimming again.
proof fn lemma_trimmed_shape(s: Seq<char>)
    ensures
        exists|from: int, to: int|
            0 <= from <= to <= s.len() && trimmed(s) == #[trigger] s.subrange(from, to),
        trimmed(s).len() > 0 ==> !is_space(trimmed(s)[0]) && !is_space(trimmed(s).last()),
        trimmed(trimmed(s)) == trimmed(s),
{
    lemma_trim_start_shape(s);
    let started = trim_start(s);
    let from = choose|k: int| 0 <= k <= s.len() && trim_start(s) == #[trigger] s.skip(k);
    lemma_trim_end_shape(started);
    let k = choose|k: int| 0 <= k <= started.len() && trim_end(started) == #[trigger] started.take(k);
    let t = trimmed(s);
    assert(t =~= s.subrange(from, from + k));
    if t.len() > 0 {
        assert(t[0] == started[0]);
    }
    // Trimming again finds nothing to drop.
    assert(trim_start(t) == t);
    assert(trim_end(t) == t);
}

/// A line that an entry is written as is read back as that entry.
proof fn lemma_line_reads_back(entries: Entries, entry: (Seq<char>, Seq<char>))
    requires
        readable(entry),
    ensures
        put_line(entries, line_of(entry)) == put(entries, entry.0, entry.1),
{
    let line = line_of(entry);
    let at = entry.0.len() as int;
    assert(line[at] == ':');
    assert forall|k: int| 0 <= k < at implies line[k] != ':' by {
        lemma_index_of(entry.0, ':');
        assert(line[k] == entry.0[k]);
    }
    lemma_index_of_is(line, ':', at);
    assert(line.take(at) =~= entry.0);
    assert(line.skip(at + 1) =~= entry.1);
}

/// Reading a line and what follows its line feed is reading the line and
/// then the rest.
proof fn lemma_absorb_line(entries: Entries, line: Seq<char>, rest: Seq<char>)
    requires
        !has_char(line, '\n'),
    ensures
        absorb(entries, line + seq!['\n'] + rest) == absorb(put_line(entries, line), rest),
{
    let text = line + seq!['\n'] + rest;
    let at = line.len() as int;
    assert(text[at] == '\n');
    assert forall|k: int| 0 <= k < at implies text[k] != '\n' by {
        lemma_index_of(line, '\n');
        assert(text[k] == line[k]);
    }
    lemma_index_of_is(text, '\n', at);
    assert(text.take(at) =~= line);
    assert(text.skip(at + 1) =~= rest);
}

/// The text of a mapping is the line of its first entry, a line feed, and
/// the text of the rest.
proof fn lemma_rendered_from_the_front(entries: Entries)
    requires
        entries.len() > 0,
    ensures
        rendered(entries) == line_of(entries[0]) + seq!['\n'] + rendered(entries.drop_first()),
    decreases entries.len(),
{
    let shorter = entries.drop_last();
    let last = entries.last();
    if entries.len() == 1 {
        assert(shorter.len() == 0);
        assert(entries.drop_first().len() == 0);
        assert(rendered(shorter) =~= Seq::<char>::empty());
        assert(rendered(entries.drop_first()) =~= Seq::<char>::empty());
        assert(entries.last() == entries[0]);
        assert(rendered(entries) =~= line_of(entries[0]) + seq!['\n'] + rendered(
            entries.drop_first(),
        ));
    } else {
        lemma_rendered_from_the_front(shorter);
        let rest = entries.drop_first();
        assert(rest.drop_last() =~= shorter.drop_first());
        assert(rest.last() == last);
        assert(shorter[0] == entries[0]);
        assert(rendered(entries) =~= line_of(entries[0]) + seq!['\n'] + rendered(rest));
    }
}

/// Reading the text of a mapping merges the mapping in.
proof fn lemma_absorb_rendered(entries: Entries, written: Entries)
    requires
        all_readable(written),
    ensures
        absorb(entries, rendered(written)) == merged_into(entries, written),
    decreases written.len(),
{
    if written.len() == 0 {
        let nothing = Seq::<char>::empty();
        assert(rendered(written) =~= nothing);
        assert(index_of(nothing, '\n') == 0);
        assert(nothing.take(0) =~= nothing);
        assert(trim_start(nothing) == nothing);
        assert(trim_end(nothing) == nothing);
        assert(index_of(nothing, ':') == 0);
    } else {
        let first = written[0];
        let rest = written.drop_first();
        assert(readable(first));
        assert forall|i: int| 0 <= i < rest.len() implies readable(#[trigger] rest[i]) by {
            assert(rest[i] == written[i + 1]);
        }
        lemma_rendered_from_the_front(written);
        lemma_absorb_line(entries, line_of(first), rendered(rest));
        lemma_line_reads_back(entries, first);
        lemma_absorb_rendered(put(entries, first.0, first.1), rest);
    }
}

/// The keys of a mapping, in order.
pub open spec fn keys_of(entries: Entries) -> Seq<Seq<char>> {
    Seq::new(entries.len(), |i: int| entries[i].0)
}

/// In a mapping that holds no key twice, the key at a position is found at
/// that position.
proof fn lemma_key_found_where_it_is(entries: Entries, at: int)
    requires
        distinct_keys(entries),
        0 <= at < entries.len(),
    ensures
        key_index(entries, entries[at].0) == at,
{
    assert forall|k: int| 0 <= k < at implies (#[trigger] entries[k]).0 != entries[at].0 by {}
    lemma_key_index_is(entries, entries[at].0, at);
}

/// Merging a mapping into one that has the same keys in the same order
/// gives the mapping merged in.
proof fn lemma_merge_over_same_keys(entries: Entries, more: Entries, done: int)
    requires
        distinct_keys(more),
        keys_of(entries) == keys_of(more),
        0 <= done <= more.len(),
        forall|i: int| 0 <= i < done ==> #[trigger] entries[i] == more[i],
    ensures
        merged_into(entries, more.skip(done)) == more,
    decreases more.len() - done,
{
    assert(entries.len() == keys_of(entries).len());
    assert(more.len() == keys_of(more).len());
    let rest = more.skip(done);
    if done == more.len() {
        assert(entries =~= more);
    } else {
        let next = more[done];
        assert(rest[0] == next);
        assert(rest.drop_first() =~= more.skip(done + 1));
        assert(keys_of(entries)[done] == keys_of(more)[done]);
        assert(entries[done].0 == next.0);
        assert(distinct_keys(entries)) by {
            assert forall|i: int, j: int|
                0 <= i < entries.len() && 0 <= j < entries.len() && i != j implies (
            #[trigger] entries[i]).0 != (#[trigger] entries[j]).0 by {
                assert(keys_of(entries)[i] == keys_of(more)[i]);
                assert(keys_of(entries)[j] == keys_of(more)[j]);
                assert(more[i].0 != more[j].0);
            }
        }
        lemma_key_found_where_it_is(entries, done);
        let after = put(entries, next.0, next.1);
        assert(after == entries.update(done, next));
        assert(keys_of(after) =~= keys_of(more)) by {
            assert forall|i: int| 0 <= i < after.len() implies keys_of(after)[i] == keys_of(
                more,
            )[i] by {
                assert(keys_of(entries)[i] == keys_of(more)[i]);
            }
        }
        lemma_merge_over_same_keys(after, more, done + 1);
    }
}

/// Merging into the empty mapping a mapping that holds no key twice gives
/// that mapping.
proof fn lemma_merge_into_nothing(so_far: Entries, more: Entries)
    requires
        distinct_keys(so_far + more),
    ensures
        merged_into(so_far, more) == so_far + more,
    decreases more.len(),
{
    if more.len() == 0 {
        assert(so_far + more =~= so_far);
    } else {
        let all = so_far + more;
        let next = more[0];
        assert(all[so_far.len() as int] == next);
        assert forall|k: int| 0 <= k < so_far.len() implies (#[trigger] so_far[k]).0 != next.0 by {
            assert(all[k] == so_far[k]);
            assert(all[k].0 != all[so_far.len() as int].0);
        }
        lemma_key_index_is(so_far, next.0, so_far.len() as int);
        let grown = so_far.push(next);
        assert(put(so_far, next.0, next.1) == grown);
        assert(grown + more.drop_first() =~= all);
        lemma_merge_into_nothing(grown, more.drop_first());
    }
}

/// A mapping that can be read back is read back from its text as it was.
pub proof fn lemma_text_reads_back(entries: Entries)
    requires
        all_readable(entries),
        distinct_keys(entries),
    ensures
        parsed(Some(rendered(entries))) == entries,
{
    let nothing = Seq::<(Seq<char>, Seq<char>)>::empty();
    lemma_absorb_rendered(nothing, entries);
    assert(nothing + entries =~= entries);
    lemma_merge_into_nothing(nothing, entries);
}

/// Where no character of a text is `c`, the text does not hold `c`.
proof fn lemma_has_no_char(s: Seq<char>, c: char)
    requires
        forall|k: int| 0 <= k < s.len() ==> s[k] != c,
    ensures
        !has_char(s, c),
{
    lemma_index_of_is(s, c, s.len() as int);
}

/// Reading a line keeps a mapping readable.
proof fn lemma_put_line_readable(entries: Entries, line: Seq<char>)
    requires
        all_readable(entries),
        !has_char(line, '\n'),
    ensures
        all_readable(put_line(entries, line)),
{
    let t = trimmed(line);
    let i = index_of(t, ':');
    lemma_index_of(t, ':');
    lemma_index_of(line, '\n');
    lemma_trimmed_shape(line);
    if 0 <= i < t.len() {
        let entry = (t.take(i), t.skip(i + 1));
        assert(line_of(entry) =~= t);
        assert(!has_char(entry.0, ':')) by {
            assert forall|k: int| 0 <= k < entry.0.len() implies entry.0[k] != ':' by {
                assert(entry.0[k] == t[k]);
            }
            lemma_has_no_char(entry.0, ':');
        }
        assert(!has_char(t, '\n')) by {
            let (from, to) = choose|from: int, to: int|
                0 <= from <= to <= line.len() && trimmed(line) == #[trigger] line.subrange(
                    from,
                    to,
                );
            assert forall|k: int| 0 <= k < t.len() implies t[k] != '\n' by {
                assert(t[k] == line[from + k]);
            }
            lemma_has_no_char(t, '\n');
        }
        assert(readable(entry));
        lemma_put_readable(entries, entry);
    }
}

/// Setting a key to an entry that can be read back keeps a mapping
/// readable.
proof fn lemma_put_readable(entries: Entries, entry: (Seq<char>, Seq<char>))
    requires
        all_readable(entries),
        readable(entry),
    ensures
        all_readable(put(entries, entry.0, entry.1)),
{
    let out = put(entries, entry.0, entry.1);
    lemma_key_index(entries, entry.0);
    assert forall|i: int| 0 <= i < out.len() implies readable(#[trigger] out[i]) by {
        if out[i] != entry {
            assert(out[i] == entries[i]);
        }
    }
}

/// A mapping read from text can be read back.
proof fn lemma_absorb_readable(entries: Entries, text: Seq<char>)
    requires
        all_readable(entries),
    ensures
        all_readable(absorb(entries, text)),
    decreases text.len(),
{
    let i = index_of(text, '\n');
    lemma_index_of(text, '\n');
    let line = text.take(i);
    assert(!has_char(line, '\n')) by {
        assert forall|k: int| 0 <= k < line.len() implies line[k] != '\n' by {
            assert(line[k] == text[k]);
        }
        lemma_has_no_char(line, '\n');
    }
    lemma_put_line_readable(entries, line);
    if 0 <= i < text.len() {
        lemma_absorb_readable(put_line(entries, line), text.skip(i + 1));
    }
}

/// Removing a key keeps a mapping readable.
proof fn lemma_without_readable(entries: Entries, key: Seq<char>)
    requires
        all_readable(entries),
    ensures
        all_readable(without(entries, key)),
{
    let out = without(entries, key);
    let at = key_index(entries, key);
    lemma_key_index(entries, key);
    assert forall|i: int| 0 <= i < out.len() implies readable(#[trigger] out[i]) by {
        if 0 <= at < entries.len() {
            if i < at {
                assert(out[i] == entries[i]);
            } else {
                assert(out[i] == entries[i + 1]);
            }
        }
    }
}

/// Merging keeps a mapping readable.
proof fn lemma_merged_readable(entries: Entries, more: Entries)
    requires
        all_readable(entries),
        all_readable(more),
    ensures
        all_readable(merged_into(entries, more)),
    decreases more.len(),
{
    if more.len() > 0 {
        let rest = more.drop_first();
        assert(readable(more[0]));
        assert forall|i: int| 0 <= i < rest.len() implies readable(#[trigger] rest[i]) by {
            assert(rest[i] == more[i + 1]);
        }
        lemma_put_readable(entries, more[0]);
        lemma_merged_readable(put(entries, more[0].0, more[0].1), rest);
    }
}

/// What a copy contributes can be read back.
proof fn lemma_contribution_readable(copy: CopyModel, current: Seq<char>)
    ensures
        all_readable(contribution(copy, current)),
{
    let nothing = Seq::<(Seq<char>, Seq<char>)>::empty();
    assert(all_readable(nothing));
    let held = parsed(copy.content);
    if let Some(text) = copy.content {
        lemma_absorb_readable(nothing, text);
    }
    lemma_without_readable(held, resource_pack_key());
    lemma_without_readable(without(held, resource_pack_key()), incompatible_resource_pack_key());
}

/// The merge of copies into a mapping holds no key twice, can be read back,
/// and holds every key that the mapping or one of the copies contributes.
proof fn lemma_fold_shape(entries: Entries, copies: Seq<CopyModel>, current: Seq<char>)
    requires
        distinct_keys(entries),
        all_readable(entries),
    ensures
        distinct_keys(fold_copies(entries, copies, current)),
        all_readable(fold_copies(entries, copies, current)),
        forall|key: Seq<char>|
            has_key(entries, key) ==> has_key(fold_copies(entries, copies, current), key),
        forall|i: int, key: Seq<char>|
            0 <= i < copies.len() && has_key(contribution(#[trigger] copies[i], current), key)
                ==> #[trigger] has_key(fold_copies(entries, copies, current), key),
    decreases copies.len(),
{
    if copies.len() > 0 {
        let first = contribution(copies[0], current);
        let next = merged_into(entries, first);
        let rest = copies.drop_first();
        lemma_contribution(copies[0], current);
        lemma_contribution_readable(copies[0], current);
        lemma_merged_readable(entries, first);
        lemma_merged_into(entries, first, Seq::empty());
        lemma_fold_shape(next, rest, current);
        let out = fold_copies(entries, copies, current);
        assert forall|key: Seq<char>| has_key(entries, key) implies has_key(out, key) by {
            lemma_merged_into(entries, first, key);
        }
        assert forall|i: int, key: Seq<char>|
            0 <= i < copies.len() && has_key(
                contribution(#[trigger] copies[i], current),
                key,
            ) implies #[trigger] has_key(out, key) by {
            if i == 0 {
                lemma_merged_into(entries, first, key);
            } else {
                assert(rest[i - 1] == copies[i]);
            }
        }
    }
}

/// Where two mappings have the same keys in the same order, a key is found
/// at the same position in both.
proof fn lemma_key_index_by_keys(a: Entries, b: Entries, key: Seq<char>)
    requires
        keys_of(a) == keys_of(b),
    ensures
        key_index(a, key) == key_index(b, key),
        has_key(a, key) == has_key(b, key),
{
    assert(a.len() == keys_of(a).len() && b.len() == keys_of(b).len());
    lemma_key_index(a, key);
    let i = key_index(a, key);
    assert forall|k: int| 0 <= k < i implies (#[trigger] b[k]).0 != key by {
        assert(keys_of(a)[k] == keys_of(b)[k]);
        assert(a[k].0 != key);
    }
    if i < a.len() {
        assert(keys_of(a)[i] == keys_of(b)[i]);
    }
    lemma_key_index_is(b, key, i);
}

/// Merging in a mapping whose keys are all there already keeps the keys and
/// their order.
proof fn lemma_merge_keeps_keys(entries: Entries, more: Entries)
    requires
        forall|key: Seq<char>| has_key(more, key) ==> has_key(entries, key),
    ensures
        keys_of(merged_into(entries, more)) == keys_of(entries),
    decreases more.len(),
{
    if more.len() > 0 {
        let next = more[0];
        let rest = more.drop_first();
        assert(has_key(more, next.0));
        lemma_key_index(entries, next.0);
        let after = put(entries, next.0, next.1);
        assert(keys_of(after) =~= keys_of(entries)) by {
            assert forall|i: int| 0 <= i < after.len() implies keys_of(after)[i] == keys_of(
                entries,
            )[i] by {}
        }
        assert forall|key: Seq<char>| has_key(rest, key) implies has_key(after, key) by {
            lemma_key_index(rest, key);
            assert(has_key(more, key));
            lemma_key_index_by_keys(after, entries, key);
        }
        lemma_merge_keeps_keys(after, rest);
    }
}

/// Whether `copy` is the current instance's copy and holds the text of
/// `merged`, or is another's and contributes only keys that `merged` has.
spec fn fits(copy: CopyModel, current: Seq<char>, merged: Entries) -> bool {
    if copy.path == current {
        contribution(copy, current) == merged
    } else {
        forall|key: Seq<char>|
            has_key(contribution(copy, current), key) ==> has_key(merged, key)
    }
}

/// Merging copies into a mapping that has the keys of `merged` gives
/// `merged`, where every copy fits, the current instance's copies come
/// last, and there is one of them or the mapping is `merged` already.
proof fn lemma_fold_settles(
    entries: Entries,
    copies: Seq<CopyModel>,
    current: Seq<char>,
    merged: Entries,
)
    requires
        distinct_keys(merged),
        keys_of(entries) == keys_of(merged),
        forall|i: int| 0 <= i < copies.len() ==> fits(#[trigger] copies[i], current, merged),
        forall|i: int, j: int|
            0 <= i < j < copies.len() && (#[trigger] copies[i]).path == current ==> (
            #[trigger] copies[j]).path == current,
        (exists|i: int| 0 <= i < copies.len() && (#[trigger] copies[i]).path == current) || (
        entries == merged && copies.len() == 0),
    ensures
        fold_copies(entries, copies, current) == merged,
    decreases copies.len(),
{
    if copies.len() > 0 {
        let first = copies[0];
        let rest = copies.drop_first();
        let given = contribution(first, current);
        let next = merged_into(entries, given);
        assert(fits(first, current, merged));
        assert forall|i: int| 0 <= i < rest.len() implies fits(#[trigger] rest[i], current, merged) by {
            assert(rest[i] == copies[i + 1]);
        }
        assert forall|i: int, j: int|
            0 <= i < j < rest.len() && (#[trigger] rest[i]).path == current implies (
        #[trigger] rest[j]).path == current by {
            assert(rest[i] == copies[i + 1] && rest[j] == copies[j + 1]);
        }
        if first.path == current {
            assert(merged.skip(0) =~= merged);
            lemma_merge_over_same_keys(entries, merged, 0);
            assert(next == merged);
            if rest.len() > 0 {
                assert(copies[1].path == current);
                assert(rest[0] == copies[1]);
            }
        } else {
            assert forall|key: Seq<char>| has_key(given, key) implies has_key(entries, key) by {
                lemma_key_index_by_keys(entries, merged, key);
            }
            lemma_merge_keeps_keys(entries, given);
            let at = choose|i: int| 0 <= i < copies.len() && (#[trigger] copies[i]).path == current;
            assert(rest[at - 1] == copies[at]);
        }
        lemma_fold_settles(next, rest, current, merged);
    }
}

/// Two lists that hold the same copies as often hold the same copies.
proof fn lemma_same_members(a: Seq<CopyModel>, b: Seq<CopyModel>, copy: CopyModel)
    requires
        a.to_multiset() == b.to_multiset(),
        a.contains(copy),
    ensures
        b.contains(copy),
{
    a.to_multiset_ensures();
    b.to_multiset_ensures();
    assert(a.to_multiset().count(copy) > 0);
    assert(b.to_multiset().count(copy) > 0);
}

/// Merging the options again after the merged text has been written gives
/// the same mapping, and so the same text. This is said of the state that
/// writing leaves: the current instance is listed, its copy holds the
/// merged text and is younger than every other instance's copy, and the
/// other copies are as they were.
pub proof fn lemma_merging_again_changes_nothing(
    fallback: Option<Seq<char>>,
    current: Seq<char>,
    before: Seq<CopyModel>,
    after: Seq<CopyModel>,
)
    requires
        exists|i: int| 0 <= i < after.len() && (#[trigger] after[i]).path == current,
        forall|i: int|
            0 <= i < after.len() && (#[trigger] after[i]).path == current ==> after[i].content
                == Some(rendered(combined(fallback, current, Some(before)))),
        forall|i: int|
            0 <= i < after.len() && (#[trigger] after[i]).path != current ==> before.contains(
                after[i],
            ),
        forall|i: int, j: int|
            0 <= i < after.len() && 0 <= j < after.len() && (#[trigger] after[i]).path != current
                && (#[trigger] after[j]).path == current ==> after[i].stamp < after[j].stamp,
    ensures
        combined(
            Some(rendered(combined(fallback, current, Some(before)))),
            current,
            Some(after),
        ) == combined(fallback, current, Some(before)),
{
    let nothing = Seq::<(Seq<char>, Seq<char>)>::empty();
    let start = parsed(fallback);
    assert(all_readable(nothing) && distinct_keys(nothing));
    if let Some(text) = fallback {
        lemma_absorb_readable(nothing, text);
        lemma_absorb_distinct(nothing, text);
    }
    let order = by_stamp(before);
    lemma_by_stamp_ordered(before);
    lemma_fold_shape(start, order, current);
    let merged = fold_copies(start, order, current);
    assert(merged == combined(fallback, current, Some(before)));
    lemma_text_reads_back(merged);

    let again = by_stamp(after);
    lemma_by_stamp_ordered(after);
    assert forall|i: int| 0 <= i < again.len() implies fits(#[trigger] again[i], current, merged) by {
        let copy = again[i];
        assert(again.contains(copy));
        lemma_same_members(again, after, copy);
        let at = choose|at: int| 0 <= at < after.len() && after[at] == copy;
        if copy.path != current {
            assert(before.contains(after[at]));
            lemma_same_members(before, order, copy);
            let was = choose|was: int| 0 <= was < order.len() && order[was] == copy;
            assert forall|key: Seq<char>| has_key(contribution(copy, current), key) implies has_key(
                merged,
                key,
            ) by {
                assert(has_key(contribution(order[was], current), key));
            }
        }
    }
    assert forall|i: int, j: int|
        0 <= i < j < again.len() && (#[trigger] again[i]).path == current implies (
    #[trigger] again[j]).path == current by {
        assert(again.contains(again[i]) && again.contains(again[j]));
        lemma_same_members(again, after, again[i]);
        lemma_same_members(again, after, again[j]);
        let a = choose|a: int| 0 <= a < after.len() && after[a] == again[i];
        let b = choose|b: int| 0 <= b < after.len() && after[b] == again[j];
        if again[j].path != current {
            assert(after[b].stamp < after[a].stamp);
            assert(again[i].stamp <= again[j].stamp);
        }
    }
    assert(exists|i: int| 0 <= i < again.len() && (#[trigger] again[i]).path == current) by {
        let at = choose|i: int| 0 <= i < after.len() && (#[trigger] after[i]).path == current;
        assert(after.contains(after[at]));
        lemma_same_members(after, again, after[at]);
        let i = choose|i: int| 0 <= i < again.len() && again[i] == after[at];
        assert(again[i].path == current);
    }
    lemma_fold_settles(merged, again, current, merged);
}

} // verus!
