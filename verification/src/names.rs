//! The order of target names, and a set of names kept in that order.
//!
//! Names are ordered as strings are: character by character, a proper prefix
//! before what it is a prefix of.

use vstd::prelude::*;
use crate::text::{chars_of, texts};

verus! {

/// Whether `a` comes strictly before `b`.
pub open spec fn name_lt(a: Seq<char>, b: Seq<char>) -> bool
    decreases a.len(),
{
    if b.len() == 0 {
        false
    } else if a.len() == 0 {
        true
    } else if a[0] != b[0] {
        a[0] < b[0]
    } else {
        name_lt(a.drop_first(), b.drop_first())
    }
}

/// Whether each name of `s` comes strictly before those after it.
pub open spec fn ascending(s: Seq<Seq<char>>) -> bool {
    forall|i: int, j: int| 0 <= i < j < s.len() ==> name_lt(#[trigger] s[i], #[trigger] s[j])
}

/// No name comes before itself.
pub proof fn lemma_name_lt_irreflexive(a: Seq<char>)
    ensures
        !name_lt(a, a),
    decreases a.len(),
{
    if a.len() > 0 {
        lemma_name_lt_irreflexive(a.drop_first());
    }
}

/// The order is transitive.
pub proof fn lemma_name_lt_transitive(a: Seq<char>, b: Seq<char>, c: Seq<char>)
    requires
        name_lt(a, b),
        name_lt(b, c),
    ensures
        name_lt(a, c),
    decreases a.len(),
{
    if a.len() > 0 && a[0] == b[0] && b[0] == c[0] {
        lemma_name_lt_transitive(a.drop_first(), b.drop_first(), c.drop_first());
    }
}

/// Of two names exactly one comes first, or they are the same name.
pub proof fn lemma_name_lt_total(a: Seq<char>, b: Seq<char>)
    ensures
        name_lt(a, b) || a == b || name_lt(b, a),
        !(name_lt(a, b) && name_lt(b, a)),
    decreases a.len(),
{
    if a.len() == 0 || b.len() == 0 {
        if a.len() == 0 && b.len() == 0 {
            assert(a =~= b);
        }
    } else if a[0] == b[0] {
        lemma_name_lt_total(a.drop_first(), b.drop_first());
        if a.drop_first() == b.drop_first() {
            assert(a =~= seq![a[0]] + a.drop_first());
            assert(b =~= seq![b[0]] + b.drop_first());
        }
    }
}

/// In an ascending sequence no name occurs twice.
pub proof fn lemma_ascending_distinct(s: Seq<Seq<char>>)
    requires
        ascending(s),
    ensures
        forall|i: int, j: int| 0 <= i < s.len() && 0 <= j < s.len() && i != j ==> s[i] != s[j],
{
    assert forall|i: int, j: int| 0 <= i < s.len() && 0 <= j < s.len() && i != j implies s[i]
        != s[j] by {
        lemma_name_lt_irreflexive(s[i]);
        if i < j {
            assert(name_lt(s[i], s[j]));
        } else {
            assert(name_lt(s[j], s[i]));
        }
    }
}

/// How one name stands to another.
#[derive(Clone, Copy, Debug, PartialEq, Eq, Structural)]
pub enum NameOrder {
    Before,
    Same,
    After,
}

/// Compares two names.
pub fn order_of(a: &Vec<char>, b: &Vec<char>) -> (o: NameOrder)
    ensures
        (o == NameOrder::Before) == name_lt(a@, b@),
        (o == NameOrder::Same) == (a@ == b@),
        (o == NameOrder::After) == name_lt(b@, a@),
{
    proof {
        lemma_name_lt_total(a@, b@);
        lemma_name_lt_irreflexive(a@);
    }
    let mut i: usize = 0;
    assert(a@.skip(0) =~= a@ && b@.skip(0) =~= b@);
    while i < a.len() && i < b.len()
        invariant
            i <= a.len(),
            i <= b.len(),
            forall|k: int| 0 <= k < i ==> a@[k] == b@[k],
            name_lt(a@, b@) == name_lt(a@.skip(i as int), b@.skip(i as int)),
            name_lt(b@, a@) == name_lt(b@.skip(i as int), a@.skip(i as int)),
        decreases a.len() - i,
    {
        let x = a[i];
        let y = b[i];
        if x != y {
            assert(a@.skip(i as int)[0] == x && b@.skip(i as int)[0] == y);
            return if x < y {
                NameOrder::Before
            } else {
                NameOrder::After
            };
        }
        assert(a@.skip(i as int)[0] == x && b@.skip(i as int)[0] == y);
        assert(a@.skip(i as int).drop_first() =~= a@.skip(i + 1));
        assert(b@.skip(i as int).drop_first() =~= b@.skip(i + 1));
        i += 1;
    }
    if i < b.len() {
        NameOrder::Before
    } else if i < a.len() {
        NameOrder::After
    } else {
        assert(a@ =~= b@);
        NameOrder::Same
    }
}

/// Where `name` stands among ascending `keys`: the position of the first key
/// that does not come before it, and whether that key is `name` itself.
pub(crate) fn locate(keys: &Vec<String>, name: &Vec<char>) -> (found: (usize, bool))
    requires
        ascending(texts(keys@)),
    ensures
        found.0 <= keys.len(),
        forall|k: int| 0 <= k < found.0 ==> name_lt(#[trigger] texts(keys@)[k], name@),
        found.1 ==> found.0 < keys.len() && texts(keys@)[found.0 as int] == name@,
        !found.1 ==> forall|k: int|
            found.0 <= k < keys.len() ==> name_lt(name@, #[trigger] texts(keys@)[k]),
        found.1 == texts(keys@).contains(name@),
{
    let mut i: usize = 0;
    while i < keys.len()
        invariant
            i <= keys.len(),
            ascending(texts(keys@)),
            forall|k: int| 0 <= k < i ==> name_lt(#[trigger] texts(keys@)[k], name@),
        decreases keys.len() - i,
    {
        let key = chars_of(keys[i].as_str());
        assert(key@ == texts(keys@)[i as int]);
        match order_of(&key, name) {
            NameOrder::Before => {},
            NameOrder::Same => {
                return (i, true);
            },
            NameOrder::After => {
                proof {
                    let s = texts(keys@);
                    assert forall|k: int| i <= k < keys.len() implies name_lt(
                        name@,
                        #[trigger] s[k],
                    ) by {
                        if k > i {
                            assert(name_lt(s[i as int], s[k]));
                            lemma_name_lt_transitive(name@, s[i as int], s[k]);
                        }
                    }
                    lemma_absent(s, name@, i as int);
                }
                return (i, false);
            },
        }
        i += 1;
    }
    proof {
        lemma_absent(texts(keys@), name@, i as int);
    }
    (i, false)
}

/// A name that stands strictly between what precedes position `at` and what
/// follows is not in the sequence.
proof fn lemma_absent(s: Seq<Seq<char>>, name: Seq<char>, at: int)
    requires
        0 <= at <= s.len(),
        forall|k: int| 0 <= k < at ==> name_lt(#[trigger] s[k], name),
        forall|k: int| at <= k < s.len() ==> name_lt(name, #[trigger] s[k]),
    ensures
        !s.contains(name),
{
    lemma_name_lt_irreflexive(name);
    if s.contains(name) {
        let k = choose|k: int| 0 <= k < s.len() && s[k] == name;
        if k < at {
            assert(name_lt(s[k], name));
        } else {
            assert(name_lt(name, s[k]));
        }
    }
}

/// Putting `name` at the position `locate` gives keeps the sequence ascending.
pub proof fn lemma_insert_ascending(s: Seq<Seq<char>>, name: Seq<char>, at: int)
    requires
        ascending(s),
        0 <= at <= s.len(),
        forall|k: int| 0 <= k < at ==> name_lt(#[trigger] s[k], name),
        forall|k: int| at <= k < s.len() ==> name_lt(name, #[trigger] s[k]),
    ensures
        ascending(s.insert(at, name)),
{
    let t = s.insert(at, name);
    assert forall|i: int, j: int| 0 <= i < j < t.len() implies name_lt(
        #[trigger] t[i],
        #[trigger] t[j],
    ) by {
        if j < at {
            assert(t[i] == s[i] && t[j] == s[j]);
        } else if j == at {
            assert(t[i] == s[i]);
        } else if i < at {
            assert(t[i] == s[i] && t[j] == s[j - 1]);
        } else if i == at {
            assert(t[j] == s[j - 1]);
        } else {
            assert(t[i] == s[i - 1] && t[j] == s[j - 1]);
        }
    }
}

/// A set of names, held in ascending order.
#[derive(Debug)]
pub struct NameSet {
    names: Vec<String>,
}

impl View for NameSet {
    type V = Seq<Seq<char>>;

    /// The names, in ascending order.
    closed spec fn view(&self) -> Seq<Seq<char>> {
        texts(self.names@)
    }
}

impl NameSet {
    #[verifier::type_invariant]
    closed spec fn ordered(&self) -> bool {
        ascending(texts(self.names@))
    }

    /// The empty set.
    pub fn new() -> (set: NameSet)
        ensures
            set@ == Seq::<Seq<char>>::empty(),
    {
        let set = NameSet { names: Vec::new() };
        assert(set@ =~= Seq::<Seq<char>>::empty());
        set
    }

    /// The set of the names in `list`.
    pub fn from_list(list: &Vec<String>) -> (set: NameSet)
        ensures
            set@.to_set() == texts(list@).to_set(),
            ascending(set@),
    {
        let mut set = NameSet::new();
        let mut i: usize = 0;
        assert(texts(list@.take(0)) =~= Seq::<Seq<char>>::empty());
        assert(set@.to_set() =~= texts(list@.take(0)).to_set());
        while i < list.len()
            invariant
                i <= list.len(),
                set@.to_set() == texts(list@.take(i as int)).to_set(),
                ascending(set@),
            decreases list.len() - i,
        {
            set.insert(list[i].as_str());
            proof {
                let before = texts(list@.take(i as int));
                let after = texts(list@.take(i + 1));
                assert(after =~= before.push(list@[i as int]@));
                assert(after.to_set() =~= before.to_set().insert(list@[i as int]@)) by {
                    assert forall|x: Seq<char>| after.contains(x) == (before.contains(x) || x
                        == list@[i as int]@) by {
                        if after.contains(x) {
                            let k = choose|k: int| 0 <= k < after.len() && after[k] == x;
                            if k < before.len() {
                                assert(before[k] == x);
                            }
                        }
                        if before.contains(x) {
                            let k = choose|k: int| 0 <= k < before.len() && before[k] == x;
                            assert(after[k] == x);
                        }
                        if x == list@[i as int]@ {
                            assert(after[i as int] == x);
                        }
                    }
                }
            }
            i += 1;
        }
        assert(list@.take(list.len() as int) =~= list@);
        set
    }

    /// The names of the set that are not in `other`.
    pub fn without(&self, other: &NameSet) -> (rest: NameSet)
        ensures
            rest@.to_set() == self@.to_set().difference(other@.to_set()),
            ascending(rest@),
    {
        let mut rest = NameSet::new();
        let n = self.len();
        let mut i: usize = 0;
        assert(rest@.to_set() =~= self@.take(0).to_set().difference(other@.to_set()));
        while i < n
            invariant
                i <= n == self@.len(),
                rest@.to_set() == self@.take(i as int).to_set().difference(other@.to_set()),
                ascending(rest@),
            decreases n - i,
        {
            let name = self.get(i);
            let ghost before = self@.take(i as int);
            let ghost after = self@.take(i + 1);
            proof {
                assert(after =~= before.push(name@));
                assert forall|x: Seq<char>| after.contains(x) == (before.contains(x) || x
                    == name@) by {
                    if after.contains(x) {
                        let k = choose|k: int| 0 <= k < after.len() && after[k] == x;
                        if k < before.len() {
                            assert(before[k] == x);
                        }
                    }
                    if before.contains(x) {
                        let k = choose|k: int| 0 <= k < before.len() && before[k] == x;
                        assert(after[k] == x);
                    }
                    if x == name@ {
                        assert(after[i as int] == x);
                    }
                }
            }
            if !other.contains(name.as_str()) {
                rest.insert(name.as_str());
            }
            assert(rest@.to_set() =~= after.to_set().difference(other@.to_set()));
            i += 1;
        }
        assert(self@.take(n as int) =~= self@);
        rest
    }

    /// A copy of the set.
    pub fn duplicate(&self) -> (copy: NameSet)
        ensures
            copy@ == self@,
    {
        proof {
            use_type_invariant(self);
        }
        let mut names: Vec<String> = Vec::new();
        let mut i: usize = 0;
        while i < self.names.len()
            invariant
                i <= self.names.len(),
                names@.len() == i,
                texts(names@) == texts(self.names@).take(i as int),
            decreases self.names.len() - i,
        {
            let ghost before = names@;
            names.push(self.names[i].clone());
            i += 1;
            assert forall|k: int| 0 <= k < i implies texts(names@)[k] == texts(self.names@)[k] by {
                if k < i - 1 {
                    assert(texts(before)[k] == texts(self.names@).take(i - 1)[k]);
                }
            }
            assert(texts(names@) =~= texts(self.names@).take(i as int));
        }
        assert(texts(self.names@).take(self.names.len() as int) =~= texts(self.names@));
        NameSet { names }
    }

    /// The number of names. The names are in ascending order, so none
    /// occurs twice.
    pub fn len(&self) -> (n: usize)
        ensures
            n == self@.len(),
            ascending(self@),
    {
        proof {
            use_type_invariant(self);
        }
        self.names.len()
    }

    /// Whether the set holds no name.
    pub fn is_empty(&self) -> (empty: bool)
        ensures
            empty == (self@.len() == 0),
    {
        self.names.len() == 0
    }

    /// The name at position `i` of the ascending order.
    pub fn get(&self, i: usize) -> (name: &String)
        requires
            i < self@.len(),
        ensures
            name@ == self@[i as int],
    {
        &self.names[i]
    }

    /// Whether `name` is in the set.
    pub fn contains(&self, name: &str) -> (held: bool)
        ensures
            held == self@.contains(name@),
    {
        proof {
            use_type_invariant(self);
        }
        let key = chars_of(name);
        let found = locate(&self.names, &key);
        found.1
    }

    /// Adds `name`; returns whether it was new.
    pub fn insert(&mut self, name: &str) -> (added: bool)
        ensures
            added == !old(self)@.contains(name@),
            final(self)@.contains(name@),
            final(self)@.to_set() == old(self)@.to_set().insert(name@),
            ascending(final(self)@),
            !added ==> final(self)@ == old(self)@,
            added ==> exists|at: int|
                0 <= at <= old(self)@.len() && final(self)@ == old(self)@.insert(at, name@),
    {
        proof {
            use_type_invariant(&*self);
        }
        let key = chars_of(name);
        let found = locate(&self.names, &key);
        if found.1 {
            assert(self@.to_set() =~= self@.to_set().insert(name@));
            return false;
        }
        let ghost before = texts(self.names@);
        let mut taken = NameSet { names: Vec::new() };
        std::mem::swap(self, &mut taken);
        let mut names = taken.names;
        names.insert(found.0, name.to_owned());
        proof {
            lemma_insert_ascending(before, name@, found.0 as int);
            assert(texts(names@) =~= before.insert(found.0 as int, name@));
        }
        *self = NameSet { names };
        proof {
            let after = before.insert(found.0 as int, name@);
            assert(after[found.0 as int] == name@);
            assert forall|x: Seq<char>| after.to_set().contains(x) == before.to_set().insert(
                name@,
            ).contains(x) by {
                if after.contains(x) {
                    let k = choose|k: int| 0 <= k < after.len() && after[k] == x;
                    if k < found.0 {
                        assert(before[k] == x);
                    } else if k > found.0 {
                        assert(before[k - 1] == x);
                    }
                }
                if before.contains(x) {
                    let k = choose|k: int| 0 <= k < before.len() && before[k] == x;
                    if k < found.0 {
                        assert(after[k] == x);
                    } else {
                        assert(after[k + 1] == x);
                    }
                }
            }
            assert(after.to_set() =~= before.to_set().insert(name@));
        }
        true
    }

}

} // verus!
