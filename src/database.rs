//! The registry of named collections.
use crate::collection::Collection;
use crate::keyed::{drop_key, has_key, key_index, lemma_drop_key, lemma_key_index, lemma_put, lookup, put, unique_keys};
use vstd::prelude::*;

verus! {

/// What a collection stands for in the registry: its name and its documents.
pub open spec fn registry_entry(c: Collection) -> (Seq<char>, Seq<(Seq<char>, Seq<u32>)>) {
    (c.name_view(), c.entries())
}

/// A registry of collections with unique names.
///
/// Every operation takes the database by reference, shared or exclusive, so
/// Rust's borrow rules serialise them; callers that share a database across
/// threads put it behind one lock.
pub struct Database {
    collections: Vec<Collection>,
}

impl Database {
    /// The registry as `(name, documents)` entries, in order of creation.
    pub closed spec fn registry(&self) -> Seq<(Seq<char>, Seq<(Seq<char>, Seq<u32>)>)> {
        self.collections@.map_values(|c: Collection| registry_entry(c))
    }

    /// Names are unique and every collection is well formed.
    pub closed spec fn wf(&self) -> bool {
        &&& unique_keys(self.registry())
        &&& forall|i: int| 0 <= i < self.collections@.len() ==> #[trigger] self.collections@[i].wf()
    }

    /// Names in a well-formed database are unique.
    pub proof fn lemma_unique_names(&self)
        requires
            self.wf(),
        ensures
            unique_keys(self.registry()),
    {
    }

    /// A database with no collections.
    pub fn new() -> (db: Database)
        ensures
            db.wf(),
            unique_keys(db.registry()),
            db.registry() == Seq::<(Seq<char>, Seq<(Seq<char>, Seq<u32>)>)>::empty(),
    {
        let db = Database { collections: Vec::new() };
        assert(db.registry() =~= Seq::<(Seq<char>, Seq<(Seq<char>, Seq<u32>)>)>::empty());
        db
    }

    /// The position of the collection named `name`, if there is one.
    fn position(&self, name: &String) -> (r: Option<usize>)
        requires
            self.wf(),
        ensures
            r is None <==> !has_key(self.registry(), name@),
            r matches Some(i) ==> i == key_index(self.registry(), name@) && i
                < self.collections@.len(),
    {
        let ghost e = self.registry();
        let mut i: usize = 0;
        while i < self.collections.len()
            invariant
                i <= self.collections.len(),
                e == self.registry(),
                self.wf(),
                forall|j: int| 0 <= j < i ==> #[trigger] e[j].0 != name@,
            decreases self.collections.len() - i,
        {
            let found = *self.collections[i].name() == *name;
            assert(e[i as int] == registry_entry(self.collections@[i as int]));
            if found {
                assert(e[i as int].0 == name@);
                proof {
                    lemma_key_index(e, name@, i as int);
                }
                return Some(i);
            }
            i = i + 1;
        }
        None
    }

    /// Registers a fresh, empty collection named `name`, replacing in place
    /// any collection of that name and its documents.
    pub fn create_collection(&mut self, name: &str)
        requires
            old(self).wf(),
        ensures
            final(self).wf(),
            unique_keys(final(self).registry()),
            final(self).registry() == put(
                old(self).registry(),
                name@,
                Seq::<(Seq<char>, Seq<u32>)>::empty(),
            ),
            lookup(final(self).registry(), name@) == Some(Seq::<(Seq<char>, Seq<u32>)>::empty()),
            forall|k: Seq<char>|
                k != name@ ==> #[trigger] lookup(final(self).registry(), k) == lookup(
                    old(self).registry(),
                    k,
                ),
    {
        let ghost e = self.registry();
        let key = name.to_owned();
        let fresh = Collection::new(name);
        let ghost v = registry_entry(fresh);
        proof {
            lemma_put(e, name@, v.1);
        }
        match self.position(&key) {
            Some(i) => {
                self.collections.set(i, fresh);
                assert(self.registry() =~= e.update(i as int, v));
            },
            None => {
                self.collections.push(fresh);
                assert(self.registry() =~= e.push(v));
            },
        }
        assert forall|i: int| 0 <= i < self.collections@.len() implies #[trigger] self.collections@[
            i
        ].wf() by {
            if i < old(self).collections@.len() && self.collections@[i] != fresh {
                assert(self.collections@[i] == old(self).collections@[i]);
            }
        }
    }

    /// Removes the collection named `name`, if there is one.
    pub fn delete_collection(&mut self, name: &str)
        requires
            old(self).wf(),
        ensures
            final(self).wf(),
            unique_keys(final(self).registry()),
            final(self).registry() == drop_key(old(self).registry(), name@),
            lookup(final(self).registry(), name@) is None,
            forall|k: Seq<char>|
                k != name@ ==> #[trigger] lookup(final(self).registry(), k) == lookup(
                    old(self).registry(),
                    k,
                ),
    {
        let ghost e = self.registry();
        let key = name.to_owned();
        proof {
            lemma_drop_key(e, name@);
        }
        match self.position(&key) {
            Some(i) => {
                self.collections.remove(i);
                assert(self.registry() =~= e.remove(i as int));
                assert forall|j: int| 0 <= j < self.collections@.len() implies #[trigger] self.collections@[
                    j
                ].wf() by {
                    if j < i {
                        assert(self.collections@[j] == old(self).collections@[j]);
                    } else {
                        assert(self.collections@[j] == old(self).collections@[j + 1]);
                    }
                }
            },
            None => {},
        }
    }

    /// A copy of the collection named `name`, or `None` where no collection
    /// has that name. Changes to the copy do not reach the database.
    pub fn get_collection(&self, name: &str) -> (r: Option<Collection>)
        requires
            self.wf(),
        ensures
            r is None <==> lookup(self.registry(), name@) is None,
            r matches Some(c) ==> c.wf() && c.name_view() == name@ && lookup(
                self.registry(),
                name@,
            ) == Some(c.entries()),
    {
        let key = name.to_owned();
        match self.position(&key) {
            Some(i) => {
                let c = self.collections[i].snapshot();
                assert(self.registry()[i as int] == registry_entry(self.collections@[i as int]));
                assert(self.collections@[i as int].wf());
                Some(c)
            },
            None => None,
        }
    }
}

} // verus!
