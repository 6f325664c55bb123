//! Maps keyed by text, held in the order of first insertion.
use vstd::prelude::*;

use crate::text;

verus! {

/// A map from texts to values. No key occurs twice.
pub struct StrMap<V> {
    entries: Vec<(String, V)>,
}

/// The keys of a list of entries.
spec fn keys_of<V>(entries: Seq<(String, V)>) -> Seq<Seq<char>> {
    entries.map_values(|e: (String, V)| e.0@)
}

impl<V> View for StrMap<V> {
    type V = Map<Seq<char>, V>;

    closed spec fn view(&self) -> Map<Seq<char>, V> {
        Map::new(
            |k: Seq<char>| keys_of(self.entries@).contains(k),
            |k: Seq<char>| self.entries@[keys_of(self.entries@).index_of(k)].1,
        )
    }
}

impl<V> StrMap<V> {
    /// The keys in the order in which they were first inserted.
    pub closed spec fn order(&self) -> Seq<Seq<char>> {
        keys_of(self.entries@)
    }

    #[verifier::type_invariant]
    spec fn wf(&self) -> bool {
        keys_of(self.entries@).no_duplicates()
    }

    proof fn lemma_at(&self, i: int)
        requires
            self.wf(),
            0 <= i < self.entries.len(),
        ensures
            self@.contains_key(self.entries@[i].0@),
            self@[self.entries@[i].0@] == self.entries@[i].1,
    {
        let ks = keys_of(self.entries@);
        assert(ks[i] == self.entries@[i].0@);
        assert(ks.contains(ks[i]));
        let j = ks.index_of(ks[i]);
        assert(ks[j] == ks[i]);
    }

    /// A map without keys.
    pub fn new() -> (r: Self)
        ensures
            r@ == Map::<Seq<char>, V>::empty(),
            r.order() == Seq::<Seq<char>>::empty(),
    {
        let r = StrMap { entries: Vec::new() };
        assert(r@ =~= Map::<Seq<char>, V>::empty());
        r
    }

    /// The index of `key`, or the number of keys if it is not there.
    fn find(&self, key: &str) -> (r: usize)
        ensures
            r <= self.entries.len(),
            r < self.entries.len() <==> self@.contains_key(key@),
            r < self.entries.len() ==> self.entries@[r as int].0@ == key@,
    {
        proof {
            use_type_invariant(self);
        }
        let mut i: usize = 0;
        while i < self.entries.len()
            invariant
                i <= self.entries.len(),
                self.wf(),
                forall|j: int| 0 <= j < i ==> keys_of(self.entries@)[j] != key@,
            decreases self.entries.len() - i,
        {
            if text::same_text(self.entries[i].0.as_str(), key) {
                proof {
                    self.lemma_at(i as int);
                }
                return i;
            }
            i = i + 1;
        }
        assert(!keys_of(self.entries@).contains(key@));
        i
    }

    /// The number of keys.
    pub fn len(&self) -> (r: usize)
        ensures
            r == self.order().len(),
    {
        self.entries.len()
    }

    /// The value for `key`.
    pub fn get(&self, key: &str) -> (r: Option<&V>)
        ensures
            r == (if self@.contains_key(key@) {
                Some(&self@[key@])
            } else {
                None
            }),
    {
        let i: usize = self.find(key);
        if i < self.entries.len() {
            proof {
                use_type_invariant(self);
                self.lemma_at(i as int);
            }
            Some(&self.entries[i].1)
        } else {
            None
        }
    }

    /// Whether `key` is there.
    pub fn contains_key(&self, key: &str) -> (r: bool)
        ensures
            r == self@.contains_key(key@),
    {
        self.find(key) < self.entries.len()
    }

    /// Sets the value for `key`, replacing the value it had.
    pub fn insert(&mut self, key: String, value: V)
        ensures
            final(self)@ == old(self)@.insert(key@, value),
            final(self).order() == (if old(self)@.contains_key(key@) {
                old(self).order()
            } else {
                old(self).order().push(key@)
            }),
    {
        proof {
            use_type_invariant(&*self);
        }
        let i: usize = self.find(key.as_str());
        let ghost was = self@;
        let ghost es = self.entries@;
        let ghost ks = keys_of(es);
        let ghost k0 = key@;
        let mut entries: Vec<(String, V)> = Vec::new();
        std::mem::swap(&mut entries, &mut self.entries);
        if i < entries.len() {
            entries.set(i, (key, value));
            proof {
                let new = keys_of(entries@);
                assert(ks[i as int] == k0);
                assert(new =~= ks);
            }
            self.entries = entries;
            proof {
                assert forall|k: Seq<char>| self@.contains_key(k) implies self@[k] == was.insert(k0, value)[k] by {
                    let j = ks.index_of(k);
                    assert(ks[j] == k);
                }
                assert(self@ =~= was.insert(k0, value));
            }
        } else {
            entries.push((key, value));
            proof {
                let new = keys_of(entries@);
                assert(new == ks.push(k0));
                assert(new[ks.len() as int] == k0);
                assert(!ks.contains(k0));
                assert forall|a: int, b: int| 0 <= a < new.len() && 0 <= b < new.len() && a != b implies new[a]
                    != new[b] by {
                    if a < ks.len() {
                        assert(ks.contains(ks[a]));
                    }
                    if b < ks.len() {
                        assert(ks.contains(ks[b]));
                    }
                }
            }
            self.entries = entries;
            proof {
                let new = keys_of(self.entries@);
                assert forall|k: Seq<char>| #[trigger] new.contains(k) <==> (ks.contains(k) || k == k0) by {
                    if ks.contains(k) {
                        let j = ks.index_of(k);
                        assert(new[j] == k);
                    }
                }
                assert forall|k: Seq<char>| self@.contains_key(k) implies self@[k] == was.insert(k0, value)[k] by {
                    let j = new.index_of(k);
                    assert(new[j] == k);
                    if k != k0 {
                        let m = ks.index_of(k);
                        assert(new[m] == k);
                        assert(j == m);
                    }
                }
                assert(self@ =~= was.insert(k0, value));
            }
        }
    }

    /// The keys in the order in which they were first inserted, each once.
    pub fn keys(&self) -> (r: Vec<String>)
        ensures
            text::texts(r@) == self.order(),
            self.order().no_duplicates(),
            forall|k: Seq<char>| #[trigger] self.order().contains(k) <==> self@.contains_key(k),
    {
        proof {
            use_type_invariant(self);
        }
        let mut out: Vec<String> = Vec::new();
        let mut i: usize = 0;
        while i < self.entries.len()
            invariant
                i <= self.entries.len(),
                text::texts(out@) == self.order().take(i as int),
            decreases self.entries.len() - i,
        {
            let ghost before = out@;
            out.push(self.entries[i].0.clone());
            proof {
                assert(text::texts(out@) =~= text::texts(before).push(self.entries@[i as int].0@));
                assert(self.order().take(i + 1) =~= self.order().take(i as int).push(self.order()[i as int]));
            }
            i = i + 1;
        }
        assert(self.order().take(i as int) == self.order());
        out
    }
}

impl StrMap<Vec<String>> {
    /// Adds `item` to the list under `key`, which starts out empty.
    pub fn add_to(&mut self, key: &str, item: String)
        ensures
            ({
                let was = if old(self)@.contains_key(key@) {
                    text::texts(old(self)@[key@]@)
                } else {
                    Seq::empty()
                };
                &&& final(self)@.contains_key(key@)
                &&& text::texts(final(self)@[key@]@) == was.push(item@)
                &&& forall|k: Seq<char>|
                    k != key@ ==> #[trigger] final(self)@.contains_key(k) == old(self)@.contains_key(k)
                        && final(self)@[k] == old(self)@[k]
            }),
    {
        let mut list: Vec<String> = match self.get(key) {
            Some(l) => l.clone(),
            None => Vec::new(),
        };
        let ghost before = list@;
        list.push(item);
        assert(text::texts(list@) =~= text::texts(before).push(item@));
        assert(!self@.contains_key(key@) ==> text::texts(before) =~= Seq::<Seq<char>>::empty());
        self.insert(key.to_owned(), list);
    }
}

} // verus!
