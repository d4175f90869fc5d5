//! Hash tables of `hashbrown`, seen through their contents.

use vstd::prelude::*;

verus! {

/// A table from token strings to pairs of integers.
#[verifier::external_body]
pub struct TokenTable {
    inner: hashbrown::HashMap<String, (usize, usize)>,
}

/// What a token table holds.
pub uninterp spec fn table_entries(t: TokenTable) -> Map<Seq<char>, (usize, usize)>;

/// A set of token strings.
#[verifier::external_body]
pub struct WordSet {
    inner: hashbrown::HashSet<String>,
}

/// What a word set holds.
pub uninterp spec fn set_words(s: WordSet) -> Set<Seq<char>>;

impl TokenTable {
    /// Relies on `hashbrown::HashMap::new`: an empty map.
    #[verifier::external_body]
    pub fn new() -> (r: TokenTable)
        ensures
            table_entries(r).dom() == Set::<Seq<char>>::empty(),
    {
        TokenTable { inner: hashbrown::HashMap::new() }
    }

    /// Relies on `hashbrown::HashMap::len`: the number of keys.
    #[verifier::external_body]
    pub fn len(&self) -> (r: usize)
        ensures
            r == table_entries(*self).dom().len(),
    {
        self.inner.len()
    }

    /// Relies on `hashbrown::HashMap::get`: the value stored under the key.
    #[verifier::external_body]
    pub fn get(&self, key: &str) -> (r: Option<(usize, usize)>)
        ensures
            r == (if table_entries(*self).contains_key(key@) {
                Some(table_entries(*self)[key@])
            } else {
                None::<(usize, usize)>
            }),
    {
        self.inner.get(key).copied()
    }

    /// Relies on `hashbrown::HashMap::insert`: the key now maps to the value,
    /// every other key is unchanged.
    #[verifier::external_body]
    pub fn insert(&mut self, key: String, value: (usize, usize))
        ensures
            table_entries(*final(self)) == table_entries(*old(self)).insert(key@, value),
    {
        self.inner.insert(key, value);
    }

    /// Relies on `hashbrown::HashMap::iter`: each entry once, in an order
    /// that the table decides.
    #[verifier::external_body]
    pub fn entries(&self) -> (r: Vec<(String, usize, usize)>)
        ensures
            forall|i: int, j: int|
                0 <= i < j < r@.len() ==> r@[i].0@ != r@[j].0@,
            forall|i: int|
                0 <= i < r@.len() ==> #[trigger] table_entries(*self).contains_key(r@[i].0@)
                    && table_entries(*self)[r@[i].0@] == (r@[i].1, r@[i].2),
            forall|k: Seq<char>|
                #[trigger] table_entries(*self).contains_key(k) ==> exists|i: int|
                    0 <= i < r@.len() && r@[i].0@ == k,
    {
        self.inner.iter().map(|(k, v)| (k.clone(), v.0, v.1)).collect()
    }
}

impl WordSet {
    /// Relies on `hashbrown::HashSet::new`: an empty set.
    #[verifier::external_body]
    pub fn new() -> (r: WordSet)
        ensures
            set_words(r) == Set::<Seq<char>>::empty(),
    {
        WordSet { inner: hashbrown::HashSet::new() }
    }

    /// Relies on `hashbrown::HashSet::insert`: the word is now a member.
    #[verifier::external_body]
    pub fn insert(&mut self, word: String)
        ensures
            set_words(*final(self)) == set_words(*old(self)).insert(word@),
    {
        self.inner.insert(word);
    }

    /// Relies on `hashbrown::HashSet::contains`: membership.
    #[verifier::external_body]
    pub fn contains(&self, word: &str) -> (r: bool)
        ensures
            r == set_words(*self).contains(word@),
    {
        self.inner.contains(word)
    }

    /// Relies on `hashbrown::HashSet::iter`: each member once, in an order
    /// that the set decides.
    #[verifier::external_body]
    pub fn words(&self) -> (r: Vec<String>)
        ensures
            forall|i: int, j: int| 0 <= i < j < r@.len() ==> r@[i]@ != r@[j]@,
            forall|i: int| 0 <= i < r@.len() ==> #[trigger] set_words(*self).contains(r@[i]@),
            forall|w: Seq<char>|
                #[trigger] set_words(*self).contains(w) ==> exists|i: int| 0 <= i < r@.len() && r@[i]@ == w,
    {
        self.inner.iter().cloned().collect()
    }
}

} // verus!
