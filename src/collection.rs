//! A named collection of documents, each an id with an embedding.
use crate::keyed::{
    drop_key, has_key, key_index, lemma_drop_key, lemma_key_index, lemma_put, lemma_put_twice, lookup, put,
    unique_keys,
};
use crate::ranking::{entries_view, is_ranked, lemma_ranked, rank_top, ranked, top_ranked};
use crate::score::{is_nan_bits, rank_key_spec};
use vstd::prelude::*;

verus! {

/// A document: its id and its embedding, each component the bit pattern of a
/// single-precision float.
pub struct Document {
    pub id: String,
    pub embedding: Vec<u32>,
}

impl Document {
    /// The document as an `(id, embedding)` entry.
    pub open spec fn entry(self) -> (Seq<char>, Seq<u32>) {
        (self.id@, self.embedding@)
    }
}

/// The `(id, embedding)` entries of a sequence of documents.
pub open spec fn documents_view(v: Seq<Document>) -> Seq<(Seq<char>, Seq<u32>)> {
    v.map_values(|d: Document| d.entry())
}

/// Each document's id paired with the score at the same position.
pub open spec fn scored(docs: Seq<(Seq<char>, Seq<u32>)>, scores: Seq<u32>) -> Seq<
    (Seq<char>, u32),
> {
    Seq::new(docs.len(), |i: int| (docs[i].0, scores[i]))
}

/// A named set of documents with unique ids, kept in order of first insertion.
pub struct Collection {
    name: String,
    documents: Vec<Document>,
}

impl Collection {
    /// The collection's name.
    pub closed spec fn name_view(&self) -> Seq<char> {
        self.name@
    }

    /// The documents as `(id, embedding)` entries, in storage order.
    pub closed spec fn entries(&self) -> Seq<(Seq<char>, Seq<u32>)> {
        documents_view(self.documents@)
    }

    /// Document ids are unique.
    pub open spec fn wf(&self) -> bool {
        unique_keys(self.entries())
    }

    /// An empty collection named `name`.
    pub fn new(name: &str) -> (c: Collection)
        ensures
            c.wf(),
            c.name_view() == name@,
            c.entries() == Seq::<(Seq<char>, Seq<u32>)>::empty(),
    {
        let c = Collection { name: name.to_owned(), documents: Vec::new() };
        assert(c.entries() =~= Seq::<(Seq<char>, Seq<u32>)>::empty());
        c
    }

    /// The collection's name.
    pub fn name(&self) -> (r: &String)
        ensures
            r@ == self.name_view(),
    {
        &self.name
    }

    /// The documents in storage order: the order in which
    /// `get_similar_documents` expects their scores.
    pub fn documents(&self) -> (r: &Vec<Document>)
        ensures
            documents_view(r@) == self.entries(),
    {
        &self.documents
    }

    /// The position of the document with id `id`, if there is one.
    fn position(&self, id: &String) -> (r: Option<usize>)
        requires
            self.wf(),
        ensures
            r is None <==> !has_key(self.entries(), id@),
            r matches Some(i) ==> i == key_index(self.entries(), id@),
    {
        let ghost e = self.entries();
        let mut i: usize = 0;
        while i < self.documents.len()
            invariant
                i <= self.documents.len(),
                e == self.entries(),
                self.wf(),
                forall|j: int| 0 <= j < i ==> #[trigger] e[j].0 != id@,
            decreases self.documents.len() - i,
        {
            if self.documents[i].id == *id {
                assert(e[i as int].0 == id@);
                proof {
                    lemma_key_index(e, id@, i as int);
                }
                return Some(i);
            }
            i = i + 1;
        }
        None
    }

    /// Stores `embedding` under `id`, replacing the embedding of a document
    /// with that id in place, or appending a new document.
    pub fn add_document(&mut self, id: &str, embedding: Vec<u32>)
        requires
            old(self).wf(),
        ensures
            final(self).wf(),
            final(self).name_view() == old(self).name_view(),
            final(self).entries() == put(old(self).entries(), id@, embedding@),
            lookup(final(self).entries(), id@) == Some(embedding@),
            forall|k: Seq<char>|
                k != id@ ==> #[trigger] lookup(final(self).entries(), k) == lookup(old(self).entries(), k),
    {
        let ghost e = self.entries();
        let key = id.to_owned();
        let doc = Document { id: id.to_owned(), embedding };
        proof {
            lemma_put(e, id@, doc.embedding@);
        }
        match self.position(&key) {
            Some(i) => {
                self.documents.set(i, doc);
                assert(self.entries() =~= e.update(i as int, (id@, doc.embedding@)));
            },
            None => {
                self.documents.push(doc);
                assert(self.entries() =~= e.push((id@, doc.embedding@)));
            },
        }
    }

    /// Removes the document with id `id`, if there is one; the others keep
    /// their order.
    pub fn remove_document(&mut self, id: &str)
        requires
            old(self).wf(),
        ensures
            final(self).wf(),
            final(self).name_view() == old(self).name_view(),
            final(self).entries() == drop_key(old(self).entries(), id@),
            lookup(final(self).entries(), id@) is None,
            forall|k: Seq<char>|
                k != id@ ==> #[trigger] lookup(final(self).entries(), k) == lookup(old(self).entries(), k),
    {
        let ghost e = self.entries();
        let key = id.to_owned();
        proof {
            lemma_drop_key(e, id@);
        }
        match self.position(&key) {
            Some(i) => {
                self.documents.remove(i);
                assert(self.entries() =~= e.remove(i as int));
            },
            None => {},
        }
    }

    /// An independent copy with the same name and documents.
    pub fn snapshot(&self) -> (c: Collection)
        ensures
            c.name_view() == self.name_view(),
            c.entries() == self.entries(),
    {
        let ghost e = self.entries();
        let mut docs: Vec<Document> = Vec::new();
        let mut i: usize = 0;
        while i < self.documents.len()
            invariant
                i <= self.documents.len(),
                e == self.entries(),
                documents_view(docs@) == e.take(i as int),
            decreases self.documents.len() - i,
        {
            let d = &self.documents[i];
            let copy = Document { id: d.id.clone(), embedding: d.embedding.clone() };
            assert(copy.embedding@ =~= d.embedding@);
            let ghost prev = docs@;
            assert(e.len() == self.documents@.len());
            assert(documents_view(prev).len() == i);
            docs.push(copy);
            assert forall|j: int| 0 <= j <= i implies #[trigger] documents_view(docs@)[j] == e[j] by {
                if j < i {
                    assert(documents_view(prev)[j] == e.take(i as int)[j]);
                    assert(docs@[j] == prev[j]);
                }
            }
            assert(documents_view(docs@) =~= e.take(i as int + 1));
            i = i + 1;
        }
        assert(e.take(i as int) =~= e);
        Collection { name: self.name.clone(), documents: docs }
    }

    /// The `top_n` best-ranked `(id, score)` pairs, where `scores[i]` is the
    /// similarity of the `i`-th document of `documents()` to the query.
    /// Pairs come by descending rank, ties in storage order.
    pub fn get_similar_documents(&self, scores: &Vec<u32>, top_n: usize) -> (r: Vec<(String, u32)>)
        requires
            scores.len() == self.entries().len(),
        ensures
            entries_view(r@) == top_ranked(scored(self.entries(), scores@), top_n as nat),
    {
        let ghost e = self.entries();
        let mut pairs: Vec<(String, u32)> = Vec::new();
        let mut i: usize = 0;
        while i < self.documents.len()
            invariant
                i <= self.documents.len(),
                scores.len() == self.documents.len(),
                e == self.entries(),
                entries_view(pairs@) == scored(e, scores@).take(i as int),
            decreases self.documents.len() - i,
        {
            let p = (self.documents[i].id.clone(), scores[i]);
            assert(e[i as int].0 == self.documents@[i as int].id@);
            let ghost prev = pairs@;
            assert(e.len() == self.documents@.len());
            assert(entries_view(prev).len() == i);
            pairs.push(p);
            assert(pairs@ == prev.push(p));
            assert forall|j: int| 0 <= j <= i implies #[trigger] entries_view(pairs@)[j] == scored(
                e,
                scores@,
            )[j] by {
                if j < i {
                    assert(entries_view(prev)[j] == scored(e, scores@).take(i as int)[j]);
                    assert(pairs@[j] == prev[j]);
                }
            }
            assert(entries_view(pairs@) =~= scored(e, scores@).take(i as int + 1));
            i = i + 1;
        }
        assert(scored(e, scores@).take(i as int) =~= scored(e, scores@));
        rank_top(&pairs, top_n)
    }
}

/// Similar documents come by non-increasing rank of their scores, among the
/// scores that are numbers.
pub proof fn lemma_similar_documents_ranked(c: Collection, scores: Seq<u32>, top_n: nat)
    requires
        scores.len() == c.entries().len(),
    ensures
        is_ranked(top_ranked(scored(c.entries(), scores), top_n)),
{
    let s = scored(c.entries(), scores);
    lemma_ranked(s);
    let r = top_ranked(s, top_n);
    assert forall|i: int, j: int|
        0 <= i < j < r.len() && !is_nan_bits(#[trigger] r[i].1) && !is_nan_bits(
            #[trigger] r[j].1,
        ) implies rank_key_spec(r[i].1) >= rank_key_spec(r[j].1) by {
        assert(r[i] == ranked(s)[i] && r[j] == ranked(s)[j]);
    }
}

/// A query for `top_n` documents yields `min(top_n, document count)` of them.
pub proof fn lemma_similar_documents_count(c: Collection, scores: Seq<u32>, top_n: nat)
    requires
        scores.len() == c.entries().len(),
    ensures
        top_ranked(scored(c.entries(), scores), top_n).len() == if top_n < c.entries().len() {
            top_n as int
        } else {
            c.entries().len() as int
        },
{
    lemma_ranked(scored(c.entries(), scores));
}

/// A query for no documents yields none.
pub proof fn lemma_similar_documents_none(c: Collection, scores: Seq<u32>)
    requires
        scores.len() == c.entries().len(),
    ensures
        top_ranked(scored(c.entries(), scores), 0) == Seq::<(Seq<char>, u32)>::empty(),
{
    lemma_similar_documents_count(c, scores, 0);
    assert(top_ranked(scored(c.entries(), scores), 0) =~= Seq::<(Seq<char>, u32)>::empty());
}

/// Adding a document twice under one id keeps only the second embedding: the
/// collection is as if only the second add had happened.
pub proof fn lemma_add_document_twice(c: Collection, id: Seq<char>, first: Seq<u32>, second: Seq<u32>)
    requires
        c.wf(),
    ensures
        put(put(c.entries(), id, first), id, second) == put(c.entries(), id, second),
        lookup(put(put(c.entries(), id, first), id, second), id) == Some(second),
{
    lemma_put_twice(c.entries(), id, first, second);
    lemma_put(c.entries(), id, second);
}

/// After a document is removed, no query result names it.
pub proof fn lemma_removed_never_similar(
    c: Collection,
    id: Seq<char>,
    scores: Seq<u32>,
    top_n: nat,
)
    requires
        c.wf(),
        scores.len() == drop_key(c.entries(), id).len(),
    ensures
        forall|i: int|
            0 <= i < top_ranked(scored(drop_key(c.entries(), id), scores), top_n).len()
                ==> (#[trigger] top_ranked(scored(drop_key(c.entries(), id), scores), top_n)[i]).0
                != id,
{
    let d = drop_key(c.entries(), id);
    let s = scored(d, scores);
    let r = top_ranked(s, top_n);
    lemma_drop_key(c.entries(), id);
    lemma_ranked(s);
    assert forall|i: int| 0 <= i < r.len() implies (#[trigger] r[i]).0 != id by {
        broadcast use vstd::seq_lib::group_to_multiset_ensures;

        let x = ranked(s)[i];
        assert(r[i] == x);
        assert(ranked(s).contains(x));
        assert(ranked(s).to_multiset().count(x) > 0);
        assert(s.to_multiset().count(x) > 0);
        assert(s.contains(x));
        let k = choose|k: int| 0 <= k < s.len() && s[k] == x;
        assert(s[k].0 == d[k].0);
    }
}

} // verus!
