//! The key/value tags of an original edge.

use vstd::prelude::*;
use vstd::string::StringExecFns;

verus! {

/// What a list of pairs maps `key` to: the value of the first pair with that key.
pub open spec fn lookup(pairs: Seq<(String, String)>, key: Seq<char>) -> Option<Seq<char>>
    decreases pairs.len(),
{
    if pairs.len() == 0 {
        None
    } else if pairs[0].0@ == key {
        Some(pairs[0].1@)
    } else {
        lookup(pairs.skip(1), key)
    }
}

/// `lookup` finds nothing exactly when no pair has the key, and otherwise the
/// value at the first index that has it.
pub proof fn lemma_lookup_first(pairs: Seq<(String, String)>, key: Seq<char>, n: int)
    requires
        0 <= n <= pairs.len(),
        forall|j: int| 0 <= j < n ==> pairs[j].0@ != key,
    ensures
        n == pairs.len() ==> lookup(pairs, key) is None,
        n < pairs.len() && pairs[n].0@ == key ==> lookup(pairs, key) == Some(pairs[n].1@),
    decreases n,
{
    if n > 0 {
        let rest = pairs.skip(1);
        assert forall|j: int| 0 <= j < n - 1 implies rest[j].0@ != key by {
            assert(rest[j] == pairs[j + 1]);
        }
        lemma_lookup_first(rest, key, n - 1);
        if n < pairs.len() {
            assert(rest[n - 1] == pairs[n]);
        }
    }
}

/// A dictionary of tags. A key has at most one value.
pub struct Tags {
    pairs: Vec<(String, String)>,
}

impl View for Tags {
    type V = Map<Seq<char>, Seq<char>>;

    closed spec fn view(&self) -> Map<Seq<char>, Seq<char>> {
        Map::new(
            |k: Seq<char>| lookup(self.pairs@, k) is Some,
            |k: Seq<char>| lookup(self.pairs@, k)->0,
        )
    }
}

impl Tags {
    /// The empty dictionary: no key has a value, and there is no entry.
    pub fn new() -> (r: Tags)
        ensures
            r@ == Map::<Seq<char>, Seq<char>>::empty(),
            r.entries() == Seq::<(Seq<char>, Seq<char>)>::empty(),
    {
        let r = Tags { pairs: Vec::new() };
        assert(r@ =~= Map::<Seq<char>, Seq<char>>::empty());
        assert(r.entries() =~= Seq::<(Seq<char>, Seq<char>)>::empty());
        r
    }

    /// Index of the first pair with the key, or the number of pairs.
    fn position(&self, key: &String) -> (n: usize)
        ensures
            n <= self.pairs@.len(),
            forall|j: int| 0 <= j < n ==> self.pairs@[j].0@ != key@,
            n < self.pairs@.len() ==> self.pairs@[n as int].0@ == key@,
            n == self.pairs@.len() <==> !self@.contains_key(key@),
            n < self.pairs@.len() ==> self@[key@] == self.pairs@[n as int].1@,
    {
        let mut n: usize = 0;
        let mut found = false;
        while !found && n < self.pairs.len()
            invariant
                n <= self.pairs@.len(),
                forall|j: int| 0 <= j < n ==> self.pairs@[j].0@ != key@,
                found ==> n < self.pairs@.len() && self.pairs@[n as int].0@ == key@,
            decreases self.pairs@.len() - n + (if found { 0int } else { 1int }),
        {
            if self.pairs[n].0 == *key {
                found = true;
            } else {
                n = n + 1;
            }
        }
        proof {
            lemma_lookup_first(self.pairs@, key@, n as int);
        }
        n
    }

    /// Sets the value of `key`, replacing any value it had.
    pub fn insert(&mut self, key: &str, value: &str)
        ensures
            final(self)@ == old(self)@.insert(key@, value@),
    {
        let k = String::from_str(key);
        let v = String::from_str(value);
        let n = self.position(&k);
        let ghost before = self.pairs@;
        if n < self.pairs.len() {
            self.pairs[n] = (k, v);
        } else {
            self.pairs.push((k, v));
        }
        proof {
            let after = self.pairs@;
            assert forall|q: Seq<char>| #[trigger] lookup(after, q) == (if q == key@ {
                Some(value@)
            } else {
                lookup(before, q)
            }) by {
                if q == key@ {
                    lemma_lookup_first(after, q, n as int);
                } else {
                    lemma_lookup_same(before, after, q, key@);
                }
            }
            assert(self@ =~= old(self)@.insert(key@, value@));
        }
    }

    /// The value of `key`, if it has one.
    pub fn get(&self, key: &str) -> (r: Option<&String>)
        ensures
            r is Some <==> self@.contains_key(key@),
            r is Some ==> r->0@ == self@[key@],
    {
        let k = String::from_str(key);
        let n = self.position(&k);
        if n < self.pairs.len() {
            Some(&self.pairs[n].1)
        } else {
            None
        }
    }

    /// Whether `key` has a value.
    pub fn has(&self, key: &str) -> (r: bool)
        ensures
            r == self@.contains_key(key@),
    {
        self.get(key).is_some()
    }

    /// Whether the value of `key` is `value`.
    pub fn is(&self, key: &str, value: &str) -> (r: bool)
        ensures
            r == (self@.contains_key(key@) && self@[key@] == value@),
    {
        let v = String::from_str(value);
        match self.get(key) {
            Some(found) => *found == v,
            None => false,
        }
    }

    /// Whether the value of `key` is one of `values`.
    pub fn is_any(&self, key: &str, values: Vec<&str>) -> (r: bool)
        ensures
            r == (self@.contains_key(key@) && exists|i: int|
                0 <= i < values@.len() && self@[key@] == (#[trigger] values@[i])@),
    {
        match self.get(key) {
            Some(found) => {
                let mut i: usize = 0;
                while i < values.len()
                    invariant
                        i <= values@.len(),
                        self@.contains_key(key@),
                        found@ == self@[key@],
                        forall|j: int| 0 <= j < i ==> self@[key@] != (#[trigger] values@[j])@,
                    decreases values@.len() - i,
                {
                    let v = String::from_str(values[i]);
                    if *found == v {
                        return true;
                    }
                    i = i + 1;
                }
                false
            },
            None => false,
        }
    }

    /// A copy of the dictionary.
    pub fn clone(&self) -> (r: Tags)
        ensures
            r@ == self@,
            r.entries() == self.entries(),
    {
        let mut pairs: Vec<(String, String)> = Vec::new();
        let mut i: usize = 0;
        while i < self.pairs.len()
            invariant
                i <= self.pairs@.len(),
                pairs@ == self.pairs@.take(i as int),
            decreases self.pairs@.len() - i,
        {
            pairs.push((self.pairs[i].0.clone(), self.pairs[i].1.clone()));
            assert(self.pairs@.take(i + 1) == self.pairs@.take(i as int).push(self.pairs@[i as int]));
            i = i + 1;
        }
        assert(self.pairs@.take(self.pairs@.len() as int) == self.pairs@);
        Tags { pairs }
    }

    /// The number of keys.
    pub fn len(&self) -> (r: usize)
        ensures
            r == self.entries().len(),
    {
        self.pairs.len()
    }

    /// The keys with their values, in the order in which keys were first set.
    pub closed spec fn entries(&self) -> Seq<(Seq<char>, Seq<char>)> {
        Seq::new(self.pairs@.len(), |i: int| (self.pairs@[i].0@, self.pairs@[i].1@))
    }

    /// The `i`-th key and its value, in the order in which keys were first set.
    pub fn pair(&self, i: usize) -> (r: (&String, &String))
        requires
            i < self.entries().len(),
        ensures
            (r.0@, r.1@) == self.entries()[i as int],
            self@.contains_key(r.0@),
    {
        proof {
            self.lemma_entry_has_key(i as int);
        }
        (&self.pairs[i].0, &self.pairs[i].1)
    }

    /// The key of every entry is a key of the dictionary.
    proof fn lemma_entry_has_key(&self, i: int)
        requires
            0 <= i < self.pairs@.len(),
        ensures
            self@.contains_key(self.pairs@[i].0@),
    {
        let key = self.pairs@[i].0@;
        let n = choose|n: int|
            0 <= n <= i && self.pairs@[n].0@ == key && forall|j: int|
                0 <= j < n ==> self.pairs@[j].0@ != key;
        assert(exists|n: int|
            0 <= n <= i && self.pairs@[n].0@ == key && forall|j: int|
                0 <= j < n ==> self.pairs@[j].0@ != key) by {
            lemma_first_with_key(self.pairs@, key, i);
        }
        lemma_lookup_first(self.pairs@, key, n);
    }
}

/// If a pair at `i` has the key, some first pair at or before `i` has it.
proof fn lemma_first_with_key(pairs: Seq<(String, String)>, key: Seq<char>, i: int)
    requires
        0 <= i < pairs.len(),
        pairs[i].0@ == key,
    ensures
        exists|n: int|
            0 <= n <= i && pairs[n].0@ == key && forall|j: int| 0 <= j < n ==> pairs[j].0@ != key,
    decreases i,
{
    if exists|m: int| 0 <= m < i && pairs[m].0@ == key {
        let m = choose|m: int| 0 <= m < i && pairs[m].0@ == key;
        lemma_first_with_key(pairs, key, m);
        let n = choose|n: int|
            0 <= n <= m && pairs[n].0@ == key && forall|j: int| 0 <= j < n ==> pairs[j].0@ != key;
        assert(0 <= n <= i && pairs[n].0@ == key && forall|j: int|
            0 <= j < n ==> pairs[j].0@ != key);
    } else {
        assert(0 <= i <= i && pairs[i].0@ == key && forall|j: int|
            0 <= j < i ==> pairs[j].0@ != key);
    }
}

/// Two lists that differ only in pairs keyed `changed` look up every other key alike.
proof fn lemma_lookup_same(
    a: Seq<(String, String)>,
    b: Seq<(String, String)>,
    q: Seq<char>,
    changed: Seq<char>,
)
    requires
        q != changed,
        a.len() <= b.len() <= a.len() + 1,
        forall|j: int| 0 <= j < a.len() ==> a[j] == b[j] || (a[j].0@ == changed && b[j].0@ == changed),
        b.len() == a.len() + 1 ==> b[a.len() as int].0@ == changed,
    ensures
        lookup(a, q) == lookup(b, q),
    decreases b.len(),
{
    if a.len() == 0 {
        if b.len() > 0 {
            assert(lookup(b.skip(1), q) is None) by {
                lemma_lookup_first(b.skip(1), q, 0);
            }
        }
    } else {
        let ra = a.skip(1);
        let rb = b.skip(1);
        assert forall|j: int| 0 <= j < ra.len() implies ra[j] == rb[j] || (ra[j].0@ == changed
            && rb[j].0@ == changed) by {
            assert(ra[j] == a[j + 1]);
            assert(rb[j] == b[j + 1]);
        }
        if rb.len() == ra.len() + 1 {
            assert(rb[ra.len() as int] == b[a.len() as int]);
        }
        lemma_lookup_same(ra, rb, q, changed);
    }
}

} // verus!
