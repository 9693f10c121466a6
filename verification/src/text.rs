//! String helpers and a small association map keyed by strings.
use vstd::prelude::*;

verus! {

/// Appends one character to a `String` (`String::push`).
#[verifier::external_body]
pub(crate) fn push_char(s: &mut String, c: char)
    ensures
        final(s)@ == old(s)@.push(c),
{
    s.push(c);
}

/// Collects the characters of a string slice into a vector.
pub fn chars_of(s: &str) -> (v: Vec<char>)
    ensures
        v@ == s@,
{
    let mut v: Vec<char> = Vec::new();
    for c in it: s.chars()
        invariant
            v@ == it.seq().take(it.index() as int),
            it.seq() == s@,
    {
        v.push(c);
    }
    v
}

/// Whether two string slices hold the same characters.
pub fn str_eq(a: &str, b: &str) -> (r: bool)
    ensures
        r == (a@ == b@),
{
    let x = chars_of(a);
    let y = chars_of(b);
    if x.len() != y.len() {
        return false;
    }
    let n = x.len();
    let mut i: usize = 0;
    while i < n
        invariant
            x@ == a@,
            y@ == b@,
            n == x@.len(),
            n == y@.len(),
            i <= n,
            forall|j: int| 0 <= j < i ==> x@[j] == y@[j],
        decreases n - i,
    {
        if x[i] != y[i] {
            return false;
        }
        i = i + 1;
    }
    assert(a@ =~= b@);
    true
}

/// The map that a sequence of `(key, value)` entries stands for: the
/// entries are applied in order, so a later entry for a key wins.
pub open spec fn entries_map<V>(entries: Seq<(String, V)>) -> Map<Seq<char>, V>
    decreases entries.len(),
{
    if entries.len() == 0 {
        Map::empty()
    } else {
        entries_map(entries.drop_last()).insert(entries.last().0@, entries.last().1)
    }
}

/// The index of the last entry whose key is `k`, if any.
pub open spec fn last_index_of<V>(entries: Seq<(String, V)>, k: Seq<char>) -> Option<int>
    decreases entries.len(),
{
    if entries.len() == 0 {
        None
    } else if entries.last().0@ == k {
        Some(entries.len() - 1)
    } else {
        last_index_of(entries.drop_last(), k)
    }
}

/// Where the last entry for a key stands, and what the map holds for it.
pub proof fn lemma_last_index_of<V>(entries: Seq<(String, V)>, k: Seq<char>)
    ensures
        match last_index_of(entries, k) {
            Some(j) => {
                &&& 0 <= j < entries.len()
                &&& entries[j].0@ == k
                &&& entries_map(entries).contains_key(k)
                &&& entries_map(entries)[k] == entries[j].1
                &&& forall|l: int| j < l < entries.len() ==> entries[l].0@ != k
            },
            None => !entries_map(entries).contains_key(k),
        },
    decreases entries.len(),
{
    if entries.len() > 0 {
        let rest = entries.drop_last();
        lemma_last_index_of(rest, k);
        if entries.last().0@ != k {
            if let Some(j) = last_index_of(rest, k) {
                assert(entries[j] == rest[j]);
                assert forall|l: int| j < l < entries.len() implies entries[l].0@ != k by {
                    if l < entries.len() - 1 {
                        assert(entries[l] == rest[l]);
                    }
                }
            }
        }
    }
}

/// Replacing the last entry for a key replaces the key's value.
pub proof fn lemma_update_last<V>(entries: Seq<(String, V)>, j: int, k: String, v: V)
    requires
        last_index_of(entries, k@) == Some(j),
    ensures
        entries_map(entries.update(j, (k, v))) == entries_map(entries).insert(k@, v),
    decreases entries.len(),
{
    lemma_last_index_of(entries, k@);
    let u = entries.update(j, (k, v));
    if j == entries.len() - 1 {
        assert(u.drop_last() =~= entries.drop_last());
        assert(entries_map(u) =~= entries_map(entries).insert(k@, v));
    } else {
        assert(u.drop_last() =~= entries.drop_last().update(j, (k, v)));
        lemma_update_last(entries.drop_last(), j, k, v);
        assert(entries_map(u) =~= entries_map(entries).insert(k@, v));
    }
}

/// A map from strings to values, kept as a list of entries.
#[derive(Debug)]
pub struct StrMap<V> {
    pub(crate) entries: Vec<(String, V)>,
}

impl<V> View for StrMap<V> {
    type V = Map<Seq<char>, V>;

    closed spec fn view(&self) -> Map<Seq<char>, V> {
        entries_map(self.entries@)
    }
}

impl<V> StrMap<V> {
    /// The map is the one its entries stand for.
    pub(crate) proof fn lemma_view(&self)
        ensures
            self@ == entries_map(self.entries@),
    {
    }

    /// An empty map.
    pub fn new() -> (m: Self)
        ensures
            m@ == Map::<Seq<char>, V>::empty(),
    {
        StrMap { entries: Vec::new() }
    }

    fn find(&self, key: &str) -> (r: Option<usize>)
        ensures
            r matches Some(j) ==> last_index_of(self.entries@, key@) == Some(j as int),
            r is None ==> last_index_of(self.entries@, key@) is None,
    {
        let mut i = self.entries.len();
        assert(self.entries@.take(i as int) =~= self.entries@);
        while i > 0
            invariant
                i <= self.entries@.len(),
                last_index_of(self.entries@, key@) == last_index_of(
                    self.entries@.take(i as int),
                    key@,
                ),
            decreases i,
        {
            let ghost t = self.entries@.take(i as int);
            assert(t.drop_last() =~= self.entries@.take(i - 1));
            if str_eq(self.entries[i - 1].0.as_str(), key) {
                return Some(i - 1);
            }
            i = i - 1;
        }
        None
    }

    /// Sets the value for `key`, replacing an earlier one.
    pub fn insert(&mut self, key: String, value: V)
        ensures
            final(self)@ == old(self)@.insert(key@, value),
    {
        match self.find(key.as_str()) {
            Some(j) => {
                proof {
                    lemma_last_index_of(self.entries@, key@);
                    lemma_update_last(self.entries@, j as int, key, value);
                }
                self.entries.set(j, (key, value));
            },
            None => {
                let ghost e = self.entries@;
                self.entries.push((key, value));
                assert(self.entries@.drop_last() =~= e);
            },
        }
    }

    /// The value for `key`, if there is one.
    pub fn get(&self, key: &str) -> (r: Option<&V>)
        ensures
            match r {
                Some(v) => self@.contains_key(key@) && *v == self@[key@],
                None => !self@.contains_key(key@),
            },
    {
        proof {
            lemma_last_index_of(self.entries@, key@);
        }
        match self.find(key) {
            Some(j) => Some(&self.entries[j].1),
            None => None,
        }
    }

    /// Whether `key` has a value.
    pub fn contains_key(&self, key: &str) -> (r: bool)
        ensures
            r == self@.contains_key(key@),
    {
        proof {
            lemma_last_index_of(self.entries@, key@);
        }
        self.find(key).is_some()
    }
}

} // verus!
