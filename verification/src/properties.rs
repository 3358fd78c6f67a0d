//! The key/value pairs of one section.
use vstd::prelude::*;
use crate::assoc::{
    assoc_map, assoc_remove, assoc_set, find_key, lemma_assoc_map, lemma_assoc_remove, lemma_assoc_set,
    lemma_find_key, unique_keys,
};
use crate::text::string_from_str;

verus! {

/// The properties of a section: keys mapped to values, each key at most once.
/// Pairs keep the order in which their keys were first set.
#[derive(Debug)]
pub struct Properties {
    keys: Vec<String>,
    values: Vec<String>,
}

impl Properties {
    #[verifier::type_invariant]
    spec fn inv(self) -> bool {
        &&& self.keys@.len() == self.values@.len()
        &&& forall|i: int, j: int|
            0 <= i < j < self.keys@.len() ==> #[trigger] self.keys@[i]@ != #[trigger] self.keys@[j]@
    }

    proof fn lemma_inv(self)
        requires
            self.inv(),
        ensures
            unique_keys(self.entries()),
            self.entries().len() == self.keys@.len(),
            forall|i: int|
                0 <= i < self.keys@.len() ==> #[trigger] self.entries()[i].0 == self.keys@[i]@,
            forall|i: int|
                0 <= i < self.keys@.len() ==> #[trigger] self.entries()[i].1 == self.values@[i]@,
    {
    }

    proof fn lemma_inv_back(keys: Vec<String>, values: Vec<String>)
        requires
            keys@.len() == values@.len(),
            unique_keys((Properties { keys, values }).entries()),
        ensures
            (Properties { keys, values }).inv(),
    {
        let p = Properties { keys, values };
        assert forall|i: int, j: int| 0 <= i < j < keys@.len() implies #[trigger] keys@[i]@ != #[trigger] keys@[j]@ by {
            assert(p.entries()[i].0 == keys@[i]@);
            assert(p.entries()[j].0 == keys@[j]@);
        }
    }

    /// The pairs, in order, as character sequences.
    pub closed spec fn entries(&self) -> Seq<(Seq<char>, Seq<char>)> {
        Seq::new(self.keys@.len(), |i: int| (self.keys@[i]@, self.values@[i]@))
    }

    /// Creates a section without properties.
    pub fn new() -> (r: Properties)
        ensures
            r.entries() == Seq::<(Seq<char>, Seq<char>)>::empty(),
            r@ == Map::<Seq<char>, Seq<char>>::empty(),
    {
        let r = Properties { keys: Vec::new(), values: Vec::new() };
        assert(r.entries() =~= Seq::<(Seq<char>, Seq<char>)>::empty());
        r
    }

    /// The number of keys.
    pub fn len(&self) -> (r: usize)
        ensures
            r == self@.len(),
            r == self.entries().len(),
    {
        proof {
            use_type_invariant(self);
            lemma_assoc_map(self.entries());
        }
        self.keys.len()
    }

    /// Every key occurs at most once among the pairs, so the map has as many
    /// keys as there are pairs. Nothing is computed: this states a fact that
    /// every `Properties` keeps.
    pub fn keys_are_distinct(&self)
        ensures
            unique_keys(self.entries()),
            self@.len() == self.entries().len(),
    {
        proof {
            use_type_invariant(self);
            self.lemma_inv();
            lemma_assoc_map(self.entries());
        }
    }

    /// Whether there is no key.
    pub fn is_empty(&self) -> (r: bool)
        ensures
            r == (self@.len() == 0),
    {
        self.len() == 0
    }

    /// The position of `key` among the pairs, if it has one.
    fn position(&self, key: &String) -> (r: Option<usize>)
        ensures
            r matches Some(i) ==> i < self.entries().len() && find_key(self.entries(), key@) == i,
            r is None ==> find_key(self.entries(), key@) == -1,
    {
        proof {
            use_type_invariant(self);
            self.lemma_inv();
            lemma_find_key(self.entries(), key@);
        }
        let mut i: usize = 0;
        while i < self.keys.len()
            invariant
                self.keys@.len() == self.values@.len(),
                unique_keys(self.entries()),
                i <= self.keys@.len(),
                forall|j: int| 0 <= j < i ==> self.entries()[j].0 != key@,
            decreases self.keys@.len() - i,
        {
            if self.keys[i] == *key {
                assert(self.entries()[i as int].0 == key@);
                proof {
                    lemma_find_key(self.entries(), key@);
                }
                return Some(i);
            }
            i = i + 1;
        }
        None
    }

    /// Whether `key` has a value.
    pub fn contains_key(&self, key: &str) -> (r: bool)
        ensures
            r == self@.dom().contains(key@),
    {
        proof {
            lemma_assoc_map(self.entries());
        }
        let k = string_from_str(key);
        self.position(&k).is_some()
    }

    /// The value of `key`, if it has one.
    pub fn get(&self, key: &str) -> (r: Option<&str>)
        ensures
            r is Some <==> self@.dom().contains(key@),
            r matches Some(v) ==> v@ == self@[key@],
    {
        proof {
            use_type_invariant(self);
            self.lemma_inv();
            lemma_assoc_map(self.entries());
        }
        let k = string_from_str(key);
        match self.position(&k) {
            Some(i) => Some(self.values[i].as_str()),
            None => None,
        }
    }

    /// The value of `key`, to be changed in place, if it has one.
    pub fn get_mut(&mut self, key: &str) -> (r: Option<&mut String>)
        ensures
            r is Some <==> old(self)@.dom().contains(key@),
            r matches Some(v) ==> {
                &&& v@ == old(self)@[key@]
                &&& final(self).entries() == old(self).entries().update(
                    find_key(old(self).entries(), key@),
                    (key@, final(v)@),
                )
            },
            r is None ==> *final(self) == *old(self),
    {
        proof {
            use_type_invariant(&*self);
            self.lemma_inv();
            lemma_assoc_map(self.entries());
        }
        let k = string_from_str(key);
        match self.position(&k) {
            Some(i) => {
                let ghost old_entries = self.entries();
                let v = &mut self.values[i];
                proof {
                    lemma_find_key(old_entries, key@);
                }
                Some(v)
            },
            None => None,
        }
    }

    /// Sets `key` to `value`, and returns the value it had before, if any.
    /// A key that is already there keeps its place; a new one goes last.
    pub fn insert(&mut self, key: String, value: String) -> (r: Option<String>)
        ensures
            final(self).entries() == assoc_set(old(self).entries(), key@, value@),
            final(self)@ == old(self)@.insert(key@, value@),
            r is Some <==> old(self)@.dom().contains(key@),
            r matches Some(v) ==> v@ == old(self)@[key@],
    {
        proof {
            use_type_invariant(&*self);
            self.lemma_inv();
            lemma_assoc_map(self.entries());
            lemma_assoc_set(self.entries(), key@, value@);
            lemma_find_key(self.entries(), key@);
        }
        let ghost old_entries = self.entries();
        let pos = self.position(&key);
        let mut taken = Properties::new();
        std::mem::swap(&mut taken, self);
        let Properties { keys: mut ks, values: mut vs } = taken;
        match pos {
            Some(i) => {
                let mut v = value;
                std::mem::swap(&mut v, &mut vs[i]);
                proof {
                    let p = Properties { keys: ks, values: vs };
                    assert(p.entries() =~= old_entries.update(i as int, (key@, value@)));
                    Properties::lemma_inv_back(ks, vs);
                }
                let r = Properties { keys: ks, values: vs };
                *self = r;
                Some(v)
            },
            None => {
                ks.push(key);
                vs.push(value);
                proof {
                    let p = Properties { keys: ks, values: vs };
                    assert(p.entries() =~= old_entries.push((key@, value@)));
                    Properties::lemma_inv_back(ks, vs);
                }
                let r = Properties { keys: ks, values: vs };
                *self = r;
                None
            },
        }
    }

    /// Removes `key`, and returns the value it had, if any. The other pairs keep their order.
    pub fn remove(&mut self, key: &str) -> (r: Option<String>)
        ensures
            final(self).entries() == assoc_remove(old(self).entries(), key@),
            final(self)@ == old(self)@.remove(key@),
            r is Some <==> old(self)@.dom().contains(key@),
            r matches Some(v) ==> v@ == old(self)@[key@],
    {
        proof {
            use_type_invariant(&*self);
            self.lemma_inv();
            lemma_assoc_map(self.entries());
            lemma_assoc_remove(self.entries(), key@);
        }
        let ghost old_entries = self.entries();
        let k = string_from_str(key);
        let pos = self.position(&k);
        match pos {
            Some(i) => {
                let mut taken = Properties::new();
                std::mem::swap(&mut taken, self);
                let Properties { keys: mut ks, values: mut vs } = taken;
                ks.remove(i);
                let v = vs.remove(i);
                proof {
                    let p = Properties { keys: ks, values: vs };
                    assert(p.entries() =~= old_entries.remove(i as int));
                    Properties::lemma_inv_back(ks, vs);
                }
                let r = Properties { keys: ks, values: vs };
                *self = r;
                Some(v)
            },
            None => None,
        }
    }

    /// The key of the pair at `i` (in the order of `entries()`).
    pub fn key_at(&self, i: usize) -> (r: &str)
        requires
            i < self.entries().len(),
        ensures
            r@ == self.entries()[i as int].0,
    {
        proof {
            use_type_invariant(self);
        }
        self.keys[i].as_str()
    }

    /// The value of the pair at `i` (in the order of `entries()`).
    pub fn value_at(&self, i: usize) -> (r: &str)
        requires
            i < self.entries().len(),
        ensures
            r@ == self.entries()[i as int].1,
    {
        proof {
            use_type_invariant(self);
        }
        self.values[i].as_str()
    }
}

impl View for Properties {
    type V = Map<Seq<char>, Seq<char>>;

    /// The map from keys to values.
    open spec fn view(&self) -> Map<Seq<char>, Seq<char>> {
        assoc_map(self.entries())
    }
}

} // verus!
