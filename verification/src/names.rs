//! Sets of names that can be walked in the order in which they were added.
use vstd::prelude::*;

use crate::text;

verus! {

/// A set of names.
#[derive(Debug)]
pub struct NameSet {
    names: Vec<String>,
}

/// What the strings say.
pub open spec fn texts(v: Seq<String>) -> Seq<Seq<char>> {
    v.map_values(|s: String| s@)
}

impl View for NameSet {
    type V = Set<Seq<char>>;

    open spec fn view(&self) -> Set<Seq<char>> {
        self.entries().to_set()
    }
}

impl NameSet {
    /// The names, in the order in which they were added.
    pub closed spec fn entries(&self) -> Seq<Seq<char>> {
        texts(self.names@)
    }

    /// No name is kept twice.
    #[verifier::type_invariant]
    spec fn distinct(&self) -> bool {
        texts(self.names@).no_duplicates()
    }

    /// No names.
    pub fn new() -> (r: Self)
        ensures
            r.entries() == Seq::<Seq<char>>::empty(),
            r@ == Set::<Seq<char>>::empty(),
    {
        let names: Vec<String> = Vec::new();
        assert(texts(names@) =~= Seq::empty());
        let r = NameSet { names };
        assert(r@ =~= Set::empty());
        r
    }

    /// Whether there is no name.
    pub fn is_empty(&self) -> (r: bool)
        ensures
            r == (self.entries().len() == 0),
            r == (self@ == Set::<Seq<char>>::empty()),
    {
        let r = self.names.len() == 0;
        proof {
            if r {
                assert(self@ =~= Set::empty());
            } else {
                assert(self.entries()[0] == self.names@[0]@);
                assert(self@.contains(self.entries()[0]));
            }
        }
        r
    }

    /// How many names there are.
    pub fn len(&self) -> (r: usize)
        ensures
            r == self.entries().len(),
            r == self@.len(),
            self@.finite(),
    {
        proof {
            use_type_invariant(self);
            self.entries().unique_seq_to_set();
            vstd::seq_lib::seq_to_set_is_finite(self.entries());
        }
        self.names.len()
    }

    /// The name at place `i`.
    pub fn at(&self, i: usize) -> (r: &str)
        requires
            i < self.entries().len(),
        ensures
            r@ == self.entries()[i as int],
            self@.contains(r@),
    {
        assert(self.entries()[i as int] == self.names@[i as int]@);
        self.names[i].as_str()
    }

    /// Whether `name` is one of the names.
    pub fn contains(&self, name: &str) -> (r: bool)
        ensures
            r == self@.contains(name@),
    {
        let mut i: usize = 0;
        while i < self.names.len()
            invariant
                i <= self.names@.len(),
                forall|k: int| 0 <= k < i ==> self.entries()[k] != name@,
            decreases self.names@.len() - i,
        {
            if text::same_text(self.names[i].as_str(), name) {
                assert(self.entries()[i as int] == name@);
                return true;
            }
            i += 1;
        }
        false
    }

    /// Adds a name. Returns whether it was new.
    pub fn insert(&mut self, name: String) -> (r: bool)
        ensures
            r == !old(self)@.contains(name@),
            final(self)@ == old(self)@.insert(name@),
            final(self).entries() == if r {
                old(self).entries().push(name@)
            } else {
                old(self).entries()
            },
    {
        if self.contains(name.as_str()) {
            assert(self@ =~= self@.insert(name@));
            return false;
        }
        proof {
            use_type_invariant(&*self);
        }
        let ghost before = self.entries();
        let ghost said = name@;
        let mut names: Vec<String> = Vec::new();
        std::mem::swap(&mut names, &mut self.names);
        let ghost kept = names@;
        names.push(name);
        proof {
            assert(texts(names@) =~= before.push(said));
            assert(names@.len() == kept.len() + 1);
            assert forall|i: int, j: int|
                0 <= i < names@.len() && 0 <= j < names@.len() && i != j implies texts(names@)[i]
                != texts(names@)[j] by {
                assert(forall|k: int| 0 <= k < before.len() ==> before[k] != said);
            }
        }
        self.names = names;
        assert(self@ =~= before.to_set().insert(said)) by {
            assert forall|t: Seq<char>|
                self@.contains(t) == before.to_set().insert(said).contains(t) by {
                if before.contains(t) {
                    let k = choose|k: int| 0 <= k < before.len() && before[k] == t;
                    assert(self.entries()[k] == t);
                }
                if t == said {
                    assert(self.entries()[before.len() as int] == t);
                }
            }
        }
        true
    }
}

}
