//! The label set of a series: keys with their values, in the order in which
//! the keys were first inserted.

use vstd::prelude::*;
use vstd::string::*;

verus! {

/// One label: a key and its value.
#[derive(Clone, Debug)]
pub struct Label {
    pub key: String,
    pub value: String,
}

/// The labels of a set as mathematical pairs of key and value.
pub type Pairs = Seq<(Seq<char>, Seq<char>)>;

/// Whether some label of `s` has the key `key`.
pub open spec fn has_key(s: Pairs, key: Seq<char>) -> bool {
    exists|i: int| 0 <= i < s.len() && (#[trigger] s[i]).0 == key
}

/// The place of a label of `s` with the key `key`.
pub open spec fn index_of_key(s: Pairs, key: Seq<char>) -> int {
    choose|i: int| 0 <= i < s.len() && (#[trigger] s[i]).0 == key
}

/// Whether no key occurs twice in `s`.
pub open spec fn distinct_keys(s: Pairs) -> bool {
    forall|i: int, j: int| 0 <= i < j < s.len() ==> (#[trigger] s[i]).0 != (#[trigger] s[j]).0
}

/// The value that `s` gives to `key`, if it has that key.
pub open spec fn lookup(s: Pairs, key: Seq<char>) -> Option<Seq<char>> {
    if has_key(s, key) {
        Some(s[index_of_key(s, key)].1)
    } else {
        None
    }
}

/// `s` with `key` set to `value`: a key that is there keeps its place, a new
/// one goes to the end.
pub open spec fn put(s: Pairs, key: Seq<char>, value: Seq<char>) -> Pairs {
    if has_key(s, key) {
        s.update(index_of_key(s, key), (key, value))
    } else {
        s.push((key, value))
    }
}

/// Setting a key keeps the keys distinct.
pub proof fn lemma_put_keeps_keys_distinct(s: Pairs, key: Seq<char>, value: Seq<char>)
    requires
        distinct_keys(s),
    ensures
        distinct_keys(put(s, key, value)),
{
    let t = put(s, key, value);
    if has_key(s, key) {
        let p = index_of_key(s, key);
        assert forall|i: int, j: int| 0 <= i < j < t.len() implies (#[trigger] t[i]).0 != (
        #[trigger] t[j]).0 by {
            assert(t[i].0 == s[i].0);
            assert(t[j].0 == s[j].0);
        }
    } else {
        assert forall|i: int, j: int| 0 <= i < j < t.len() implies (#[trigger] t[i]).0 != (
        #[trigger] t[j]).0 by {
            assert(t[i] == s[i]);
            if j < s.len() {
                assert(t[j] == s[j]);
            }
        }
    }
}

/// After `key` is set to `value`, looking `key` up gives `value`, and every
/// other key gives what it gave before.
pub proof fn lemma_lookup_after_put(s: Pairs, key: Seq<char>, value: Seq<char>, other: Seq<char>)
    requires
        distinct_keys(s),
    ensures
        lookup(put(s, key, value), key) == Some(value),
        other != key ==> lookup(put(s, key, value), other) == lookup(s, other),
{
    let t = put(s, key, value);
    lemma_put_keeps_keys_distinct(s, key, value);
    let at = if has_key(s, key) {
        index_of_key(s, key)
    } else {
        s.len() as int
    };
    assert(t[at] == (key, value));
    assert(has_key(t, key));
    lemma_key_has_one_place(t, key, at);
    if other != key {
        if has_key(s, other) {
            let i = index_of_key(s, other);
            assert(t[i] == s[i]);
            assert(has_key(t, other));
            lemma_key_has_one_place(t, other, i);
        } else if has_key(t, other) {
            let i = index_of_key(t, other);
            if i < s.len() {
                assert(s[i].0 == other);
            }
        }
    }
}

/// Among distinct keys, a key stands at one place only.
proof fn lemma_key_has_one_place(s: Pairs, key: Seq<char>, at: int)
    requires
        distinct_keys(s),
        0 <= at < s.len(),
        s[at].0 == key,
    ensures
        index_of_key(s, key) == at,
{
    let c = index_of_key(s, key);
    assert(s[c].0 == key);
    if c < at {
        assert(s[c].0 != s[at].0);
    } else if at < c {
        assert(s[at].0 != s[c].0);
    }
}

/// An ordered set of labels in which no key occurs twice.
#[derive(Debug)]
pub struct LabelSet {
    entries: Vec<Label>,
}

impl View for LabelSet {
    type V = Pairs;

    closed spec fn view(&self) -> Pairs {
        Seq::new(self.entries@.len(), |i: int| (self.entries@[i].key@, self.entries@[i].value@))
    }
}

impl Clone for LabelSet {
    fn clone(&self) -> (r: LabelSet)
        ensures
            r@ == self@,
    {
        proof {
            use_type_invariant(self);
        }
        let n: usize = self.entries.len();
        let mut entries: Vec<Label> = Vec::new();
        let mut i: usize = 0;
        while i < n
            invariant
                i <= n,
                n == self.entries@.len(),
                entries@.len() == i,
                forall|j: int|
                    0 <= j < i ==> (#[trigger] entries@[j]).key@ == self.entries@[j].key@
                        && entries@[j].value@ == self.entries@[j].value@,
            decreases n - i,
        {
            let key = self.entries[i].key.clone();
            let value = self.entries[i].value.clone();
            entries.push(Label { key, value });
            i = i + 1;
        }
        assert(Seq::new(entries@.len(), |i: int| (entries@[i].key@, entries@[i].value@))
            =~= self@);
        LabelSet { entries }
    }
}

impl LabelSet {
    #[verifier::type_invariant]
    closed spec fn keys_are_distinct(&self) -> bool {
        distinct_keys(self@)
    }

    /// The empty label set.
    pub fn new() -> (r: LabelSet)
        ensures
            r@ == Pairs::empty(),
    {
        let r = LabelSet { entries: Vec::new() };
        assert(r@ =~= Pairs::empty());
        r
    }

    /// The number of labels.
    pub fn len(&self) -> (n: usize)
        ensures
            n == self@.len(),
            distinct_keys(self@),
    {
        proof {
            use_type_invariant(self);
        }
        self.entries.len()
    }

    /// The label at place `i`.
    pub fn label(&self, i: usize) -> (r: &Label)
        requires
            i < self@.len(),
        ensures
            (r.key@, r.value@) == self@[i as int],
    {
        &self.entries[i]
    }

    /// The place of the label with the key `key`, if there is one.
    fn find(&self, key: &String) -> (r: Option<usize>)
        ensures
            match r {
                Some(i) => i < self@.len() && self@[i as int].0 == key@ && has_key(self@, key@)
                    && index_of_key(self@, key@) == i,
                None => !has_key(self@, key@),
            },
    {
        proof {
            use_type_invariant(self);
        }
        let n: usize = self.entries.len();
        let mut i: usize = 0;
        while i < n
            invariant
                i <= n,
                n == self@.len(),
                n == self.entries@.len(),
                distinct_keys(self@),
                forall|j: int| 0 <= j < i ==> (#[trigger] self@[j]).0 != key@,
            decreases n - i,
        {
            if self.entries[i].key == *key {
                proof {
                    lemma_key_has_one_place(self@, key@, i as int);
                }
                return Some(i);
            }
            i = i + 1;
        }
        None
    }

    /// The value of the label with the key `key`.
    pub fn get(&self, key: &str) -> (r: Option<&String>)
        ensures
            match r {
                Some(v) => lookup(self@, key@) == Some(v@),
                None => lookup(self@, key@) is None,
            },
    {
        let owned = key.to_owned();
        match self.find(&owned) {
            Some(i) => Some(&self.entries[i].value),
            None => None,
        }
    }

    /// Sets `key` to `value` and returns the value that `key` had before. A key
    /// that is there keeps its place; a new one goes to the end.
    pub fn insert(&mut self, key: String, value: String) -> (r: Option<String>)
        ensures
            final(self)@ == put(old(self)@, key@, value@),
            match r {
                Some(v) => lookup(old(self)@, key@) == Some(v@),
                None => lookup(old(self)@, key@) is None,
            },
    {
        proof {
            use_type_invariant(&*self);
            lemma_put_keeps_keys_distinct(self@, key@, value@);
        }
        let found = self.find(&key);
        let ghost before = self@;
        let mut entries: Vec<Label> = Vec::new();
        core::mem::swap(&mut self.entries, &mut entries);
        let r = match found {
            Some(i) => {
                let was = entries[i].value.clone();
                entries.set(i, Label { key, value });
                Some(was)
            },
            None => {
                entries.push(Label { key, value });
                None
            },
        };
        assert(Seq::new(entries@.len(), |i: int| (entries@[i].key@, entries@[i].value@)) =~= put(
            before,
            key@,
            value@,
        ));
        core::mem::swap(&mut self.entries, &mut entries);
        r
    }
}

} // verus!
