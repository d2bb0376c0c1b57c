//! The vocabulary of a corpus: every distinct term, numbered densely in the
//! order in which the terms are first seen.

use vstd::hash_map::StringHashMap;
use vstd::prelude::*;

verus! {

/// The vocabulary `known` grown by the terms of one document: each term not
/// yet present is appended, in document order.
pub open spec fn extend_vocabulary(known: Seq<Seq<char>>, doc: Seq<Seq<char>>) -> Seq<Seq<char>>
    decreases doc.len(),
{
    if doc.len() == 0 {
        known
    } else {
        let before = extend_vocabulary(known, doc.drop_last());
        if before.contains(doc.last()) {
            before
        } else {
            before.push(doc.last())
        }
    }
}

/// The vocabulary of a corpus: its distinct terms in first-seen order,
/// documents scanned in sequence. A term's index is its position.
pub open spec fn vocabulary_of(docs: Seq<Seq<Seq<char>>>) -> Seq<Seq<char>>
    decreases docs.len(),
{
    if docs.len() == 0 {
        Seq::empty()
    } else {
        extend_vocabulary(vocabulary_of(docs.drop_last()), docs.last())
    }
}

/// Whether `term` occurs in at least one document of the corpus.
pub open spec fn occurs_in_corpus(docs: Seq<Seq<Seq<char>>>, term: Seq<char>) -> bool {
    exists|i: int| 0 <= i < docs.len() && (#[trigger] docs[i]).contains(term)
}

/// Extending keeps what was known, in place, and adds exactly the terms of
/// the document, without repeating any.
pub proof fn lemma_extend_vocabulary(known: Seq<Seq<char>>, doc: Seq<Seq<char>>)
    requires
        known.no_duplicates(),
    ensures
        extend_vocabulary(known, doc).no_duplicates(),
        known.len() <= extend_vocabulary(known, doc).len(),
        forall|j: int| 0 <= j < known.len() ==> extend_vocabulary(known, doc)[j] == known[j],
        forall|t: Seq<char>|
            extend_vocabulary(known, doc).contains(t) <==> (known.contains(t) || doc.contains(t)),
    decreases doc.len(),
{
    if doc.len() > 0 {
        let shorter = doc.drop_last();
        lemma_extend_vocabulary(known, shorter);
        let before = extend_vocabulary(known, shorter);
        let after = extend_vocabulary(known, doc);
        assert forall|t: Seq<char>| after.contains(t) <==> (known.contains(t) || doc.contains(t)) by {
            if doc.contains(t) {
                let k = choose|k: int| 0 <= k < doc.len() && doc[k] == t;
                if k < doc.len() - 1 {
                    assert(shorter[k] == t);
                    assert(shorter.contains(t));
                }
            }
            if shorter.contains(t) {
                let k = choose|k: int| 0 <= k < shorter.len() && shorter[k] == t;
                assert(doc[k] == t);
            }
            if before.contains(doc.last()) {
            } else {
                assert(after =~= before.push(doc.last()));
                assert(after[before.len() as int] == doc.last());
                if after.contains(t) {
                    let k = choose|k: int| 0 <= k < after.len() && after[k] == t;
                    if k < before.len() {
                        assert(before[k] == t);
                    } else {
                        assert(doc[doc.len() - 1] == t);
                    }
                }
                if before.contains(t) {
                    let k = choose|k: int| 0 <= k < before.len() && before[k] == t;
                    assert(after[k] == t);
                }
            }
            assert(doc[doc.len() - 1] == doc.last());
        }
    }
}

/// The vocabulary invariant: no term is listed twice, and the terms listed
/// are exactly those that occur somewhere in the corpus.
pub proof fn lemma_vocabulary_of(docs: Seq<Seq<Seq<char>>>)
    ensures
        vocabulary_of(docs).no_duplicates(),
        forall|t: Seq<char>| vocabulary_of(docs).contains(t) <==> occurs_in_corpus(docs, t),
    decreases docs.len(),
{
    if docs.len() > 0 {
        let earlier = docs.drop_last();
        lemma_vocabulary_of(earlier);
        lemma_extend_vocabulary(vocabulary_of(earlier), docs.last());
        assert forall|t: Seq<char>| vocabulary_of(docs).contains(t) <==> occurs_in_corpus(
            docs,
            t,
        ) by {
            if occurs_in_corpus(docs, t) {
                let i = choose|i: int| 0 <= i < docs.len() && (#[trigger] docs[i]).contains(t);
                if i < docs.len() - 1 {
                    assert(earlier[i].contains(t));
                    assert(occurs_in_corpus(earlier, t));
                }
            }
            if occurs_in_corpus(earlier, t) {
                let i = choose|i: int| 0 <= i < earlier.len() && (#[trigger] earlier[i]).contains(t);
                assert(docs[i].contains(t));
            }
            if docs.last().contains(t) {
                assert(docs[docs.len() - 1].contains(t));
            }
        }
    } else {
        assert forall|t: Seq<char>| !vocabulary_of(docs).contains(t) by {}
    }
}

/// Index assignment is stable: a term keeps the index it was given when the
/// corpus grows by further documents.
pub proof fn lemma_vocabulary_prefix(docs: Seq<Seq<Seq<char>>>, n: int)
    requires
        0 <= n <= docs.len(),
    ensures
        vocabulary_of(docs.take(n)).len() <= vocabulary_of(docs).len(),
        forall|j: int|
            0 <= j < vocabulary_of(docs.take(n)).len() ==> vocabulary_of(docs)[j] == vocabulary_of(
                docs.take(n),
            )[j],
    decreases docs.len() - n,
{
    if n == docs.len() {
        assert(docs.take(n) =~= docs);
    } else {
        let earlier = docs.drop_last();
        assert(earlier.take(n) =~= docs.take(n));
        lemma_vocabulary_prefix(earlier, n);
        lemma_vocabulary_of(earlier);
        lemma_extend_vocabulary(vocabulary_of(earlier), docs.last());
        let part = vocabulary_of(docs.take(n));
        let most = vocabulary_of(earlier);
        assert forall|j: int| 0 <= j < part.len() implies vocabulary_of(docs)[j] == part[j] by {
            assert(most[j] == part[j]);
            assert(extend_vocabulary(most, docs.last())[j] == most[j]);
        }
    }
}

/// The frozen vocabulary of an index: the terms in index order, with a hash
/// lookup from term to index.
pub struct Vocabulary {
    terms: Vec<String>,
    lookup: StringHashMap<u64>,
}

/// Whether `lookup` maps exactly the terms listed, each to its position.
pub open spec fn lookup_agrees(lookup: Map<Seq<char>, u64>, terms: Seq<Seq<char>>) -> bool {
    &&& forall|j: int|
        0 <= j < terms.len() ==> lookup.contains_key(#[trigger] terms[j]) && lookup[terms[j]] == j
    &&& forall|t: Seq<char>| #[trigger]
        lookup.contains_key(t) ==> lookup[t] < terms.len() && terms[lookup[t] as int] == t
}

impl View for Vocabulary {
    type V = Seq<Seq<char>>;

    closed spec fn view(&self) -> Seq<Seq<char>> {
        self.terms.deep_view()
    }
}

impl Vocabulary {
    #[verifier::type_invariant]
    spec fn inv(self) -> bool {
        lookup_agrees(self.lookup@, self.terms.deep_view())
    }

    /// The number of terms.
    pub fn len(&self) -> (n: usize)
        ensures
            n == self@.len(),
            self@.no_duplicates(),
    {
        proof {
            use_type_invariant(self);
            lemma_lookup_no_duplicates(self.lookup@, self.terms.deep_view());
        }
        self.terms.len()
    }

    /// The terms in index order.
    pub fn terms(&self) -> (terms: &Vec<String>)
        ensures
            terms.deep_view() == self@,
    {
        &self.terms
    }

    /// The index of `term`, or `None` when the vocabulary does not hold it.
    pub fn index_of(&self, term: &str) -> (found: Option<u64>)
        ensures
            match found {
                Some(j) => j < self@.len() && self@[j as int] == term@,
                None => !self@.contains(term@),
            },
            self@.no_duplicates(),
    {
        proof {
            use_type_invariant(self);
        }
        match self.lookup.get(term) {
            Some(j) => Some(*j),
            None => None,
        }
    }

    /// Takes the listed terms as a vocabulary, each term at its position,
    /// when no term is listed twice; `None` otherwise.
    pub fn from_terms(terms: Vec<String>) -> (vocabulary: Option<Vocabulary>)
        ensures
            vocabulary is Some <==> terms.deep_view().no_duplicates(),
            vocabulary matches Some(v) ==> v@ == terms.deep_view(),
    {
        let ghost listed = terms.deep_view();
        let mut lookup: StringHashMap<u64> = StringHashMap::new();
        let mut k: usize = 0;
        assert(listed.take(0) =~= Seq::empty());
        while k < terms.len()
            invariant
                k <= terms.len(),
                listed == terms.deep_view(),
                lookup_agrees(lookup@, listed.take(k as int)),
            decreases terms.len() - k,
        {
            let term = &terms[k];
            let ghost seen = listed.take(k as int);
            let ghost next = listed.take(k as int + 1);
            assert(listed[k as int] == term@);
            if lookup.contains_key(term.as_str()) {
                proof {
                    let j = lookup@[term@] as int;
                    assert(seen[j] == term@);
                    assert(listed[j] == listed[k as int]);
                }
                return None;
            }
            lookup.insert(term.clone(), k as u64);
            proof {
                assert(next =~= seen.push(term@));
                assert forall|j: int| 0 <= j < next.len() implies lookup@.contains_key(
                    #[trigger] next[j],
                ) && lookup@[next[j]] == j by {
                    if j < k {
                        assert(seen[j] == next[j]);
                    }
                }
            }
            k += 1;
        }
        assert(listed.take(k as int) =~= listed);
        proof {
            lemma_lookup_no_duplicates(lookup@, listed);
        }
        Some(Vocabulary { terms, lookup })
    }

    /// Numbers the distinct terms of the documents in first-seen order.
    pub fn from_documents(docs: &Vec<Vec<String>>) -> (vocabulary: Vocabulary)
        ensures
            vocabulary@ == vocabulary_of(docs.deep_view()),
    {
        let ghost corpus = docs.deep_view();
        let mut terms: Vec<String> = Vec::new();
        let mut lookup: StringHashMap<u64> = StringHashMap::new();
        let mut i: usize = 0;
        assert(corpus.take(0) =~= Seq::empty());
        while i < docs.len()
            invariant
                i <= docs.len(),
                corpus == docs.deep_view(),
                terms.deep_view() == vocabulary_of(corpus.take(i as int)),
                lookup_agrees(lookup@, terms.deep_view()),
            decreases docs.len() - i,
        {
            let doc = &docs[i];
            let ghost start = terms.deep_view();
            let ghost words = corpus[i as int];
            assert(words == doc.deep_view());
            let mut k: usize = 0;
            assert(words.take(0) =~= Seq::empty());
            while k < doc.len()
                invariant
                    k <= doc.len(),
                    words == doc.deep_view(),
                    terms.deep_view() == extend_vocabulary(start, words.take(k as int)),
                    lookup_agrees(lookup@, terms.deep_view()),
                decreases doc.len() - k,
            {
                let term = &doc[k];
                let ghost before = terms.deep_view();
                let ghost next = words.take(k as int + 1);
                assert(next.drop_last() =~= words.take(k as int));
                assert(next.last() == term@);
                if !lookup.contains_key(term.as_str()) {
                    assert(!before.contains(term@)) by {
                        if before.contains(term@) {
                            let j = choose|j: int| 0 <= j < before.len() && before[j] == term@;
                            assert(lookup@.contains_key(before[j]));
                        }
                    }
                    let index = terms.len() as u64;
                    lookup.insert(term.clone(), index);
                    terms.push(term.clone());
                    assert(terms.deep_view() =~= before.push(term@));
                    assert(lookup_agrees(lookup@, terms.deep_view())) by {
                        let now = terms.deep_view();
                        assert forall|j: int| 0 <= j < now.len() implies lookup@.contains_key(
                            #[trigger] now[j],
                        ) && lookup@[now[j]] == j by {
                            if j < before.len() {
                                assert(before[j] == now[j]);
                                assert(before.contains(now[j]));
                            }
                        }
                    }
                } else {
                    assert(before.contains(term@)) by {
                        assert(before[lookup@[term@] as int] == term@);
                    }
                }
                k += 1;
            }
            assert(words.take(k as int) =~= words);
            assert(corpus.take(i as int + 1).drop_last() =~= corpus.take(i as int));
            assert(corpus.take(i as int + 1).last() == words);
            i += 1;
        }
        assert(corpus.take(i as int) =~= corpus);
        Vocabulary { terms, lookup }
    }
}

/// The listed terms of a vocabulary are pairwise distinct.
pub proof fn lemma_lookup_no_duplicates(lookup: Map<Seq<char>, u64>, terms: Seq<Seq<char>>)
    requires
        lookup_agrees(lookup, terms),
    ensures
        terms.no_duplicates(),
{
    assert forall|a: int, b: int| 0 <= a < terms.len() && 0 <= b < terms.len() && a != b implies terms[a]
        != terms[b] by {
        if terms[a] == terms[b] {
            assert(lookup[terms[a]] == a);
            assert(lookup[terms[b]] == b);
        }
    }
}

} // verus!
