//! The inverted index: a dictionary from tokens to posting lists, with the
//! length and title of every indexed document.
use std::collections::HashMap;
use vstd::prelude::*;

use crate::DocId;

verus! {

broadcast use vstd::std_specs::hash::group_hash_axioms;

/// One document in which a token occurs, with the token's frequency there.
#[derive(Clone, Copy, Debug, PartialEq, Eq, Structural)]
pub struct Posting {
    pub doc_id: DocId,
    pub tf: u32,
}

impl Posting {
    pub fn new(doc_id: DocId, tf: u32) -> (r: Posting)
        ensures
            r.doc_id == doc_id,
            r.tf == tf,
    {
        Posting { doc_id: doc_id, tf: tf }
    }
}

/// Document ids strictly ascending along the list.
pub open spec fn ascending(ps: Seq<Posting>) -> bool {
    forall|a: int, b: int| 0 <= a < b < ps.len() ==> ps[a].doc_id < ps[b].doc_id
}

/// The token → postings dictionary with per-document lengths and titles.
pub struct InvertedIndex {
    pub dictionary: Vec<(String, Vec<Posting>)>,
    pub doc_lengths: HashMap<DocId, u32>,
    pub doc_titles: HashMap<DocId, String>,
    pub n: u32,
    /// The sum of all document lengths; the average length is `total_length / n`.
    pub total_length: u64,
}

impl InvertedIndex {
    pub open spec fn key(&self, e: int) -> Seq<char> {
        self.dictionary@[e].0@
    }

    pub open spec fn list(&self, e: int) -> Seq<Posting> {
        self.dictionary@[e].1@
    }

    pub open spec fn has_key(&self, t: Seq<char>) -> bool {
        exists|e: int| 0 <= e < self.dictionary.len() && self.key(e) == t
    }

    /// Whether posting `p` is recorded under token `t`.
    pub open spec fn holds(&self, t: Seq<char>, p: Posting) -> bool {
        exists|e: int, k: int|
            0 <= e < self.dictionary.len() && self.key(e) == t && 0 <= k < self.list(e).len()
                && self.list(e)[k] == p
    }

    /// The postings recorded for token `t`.
    pub open spec fn lookup(&self, t: Seq<char>) -> Option<Seq<Posting>> {
        if self.has_key(t) {
            Some(self.list(choose|e: int| 0 <= e < self.dictionary.len() && self.key(e) == t))
        } else {
            None
        }
    }

    /// Keys are unique; each list is non-empty, ascending by document, no longer
    /// than the number of documents, and names only documents with a length and
    /// a title.
    pub open spec fn wf(&self) -> bool {
        &&& forall|a: int, b: int|
            0 <= a < self.dictionary.len() && 0 <= b < self.dictionary.len() && a != b
                ==> self.key(a) != self.key(b)
        &&& forall|e: int|
            0 <= e < self.dictionary.len() ==> ascending(#[trigger] self.list(e)) && 0 < self.list(
                e,
            ).len() <= self.n
        &&& forall|e: int, k: int|
            0 <= e < self.dictionary.len() && 0 <= k < self.list(e).len()
                ==> self.doc_lengths@.contains_key(#[trigger] self.list(e)[k].doc_id)
                && self.doc_titles@.contains_key(self.list(e)[k].doc_id)
    }

    /// Every document that a posting names has a length and a title.
    pub proof fn lemma_postings_name_known_documents(&self, t: Seq<char>, p: Posting)
        requires
            self.wf(),
            self.holds(t, p),
        ensures
            self.doc_lengths@.contains_key(p.doc_id),
            self.doc_titles@.contains_key(p.doc_id),
    {
        let (e, k) = choose|e: int, k: int|
            0 <= e < self.dictionary.len() && self.key(e) == t && 0 <= k < self.list(e).len()
                && self.list(e)[k] == p;
        assert(self.doc_lengths@.contains_key(self.list(e)[k].doc_id));
    }

    /// An index of no documents.
    pub fn new() -> (r: InvertedIndex)
        ensures
            r.dictionary@.len() == 0,
            r.doc_lengths@ == Map::<DocId, u32>::empty(),
            r.doc_titles@ == Map::<DocId, String>::empty(),
            r.n == 0,
            r.total_length == 0,
            r.wf(),
    {
        InvertedIndex {
            dictionary: Vec::new(),
            doc_lengths: HashMap::new(),
            doc_titles: HashMap::new(),
            n: 0,
            total_length: 0,
        }
    }

    /// The position of `token` in the dictionary.
    pub fn find(&self, token: &String) -> (r: Option<usize>)
        ensures
            match r {
                Some(e) => e < self.dictionary.len() && self.key(e as int) == token@,
                None => !self.has_key(token@),
            },
    {
        let mut e: usize = 0;
        while e < self.dictionary.len()
            invariant
                e <= self.dictionary.len(),
                forall|j: int| 0 <= j < e ==> self.key(j) != token@,
            decreases self.dictionary.len() - e,
        {
            if self.dictionary[e].0 == *token {
                return Some(e);
            }
            e += 1;
        }
        None
    }

    /// The postings of `token`, if it is in the dictionary.
    pub fn postings(&self, token: &String) -> (r: Option<&Vec<Posting>>)
        requires
            self.wf(),
        ensures
            match r {
                Some(ps) => self.lookup(token@) == Some(ps@),
                None => self.lookup(token@) is None,
            },
    {
        match self.find(token) {
            Some(e) => Some(&self.dictionary[e].1),
            None => None,
        }
    }

    /// Appends a posting to the list of `token`; a token not yet in the
    /// dictionary gets a new entry. Lists keep the order of insertion.
    pub fn add_posting(&mut self, token: String, posting: Posting)
        ensures
            final(self).n == old(self).n,
            final(self).total_length == old(self).total_length,
            final(self).doc_lengths == old(self).doc_lengths,
            final(self).doc_titles == old(self).doc_titles,
            old(self).has_key(token@) ==> {
                &&& final(self).dictionary.len() == old(self).dictionary.len()
                &&& forall|e: int|
                    0 <= e < old(self).dictionary.len() ==> final(self).key(e) == old(self).key(e)
                &&& exists|e: int|
                    0 <= e < old(self).dictionary.len() && old(self).key(e) == token@
                        && final(self).list(e) == old(self).list(e).push(posting)
                        && forall|f: int|
                        0 <= f < old(self).dictionary.len() && f != e ==> final(self).list(f)
                            == old(self).list(f)
            },
            forall|t: Seq<char>, q: Posting|
                #[trigger] final(self).holds(t, q) <==> old(self).holds(t, q) || (t == token@ && q
                    == posting),
            ({
                &&& old(self).wf()
                &&& 0 < old(self).n
                &&& old(self).doc_lengths@.contains_key(posting.doc_id)
                &&& old(self).doc_titles@.contains_key(posting.doc_id)
                &&& forall|q: Posting| old(self).holds(token@, q) ==> q.doc_id < posting.doc_id
                &&& forall|e: int|
                    0 <= e < old(self).dictionary.len() && old(self).key(e) == token@
                        ==> old(self).list(e).len() < old(self).n
            }) ==> final(self).wf(),
            !old(self).has_key(token@) ==> {
                &&& final(self).dictionary.len() == old(self).dictionary.len() + 1
                &&& forall|e: int|
                    0 <= e < old(self).dictionary.len() ==> final(self).key(e) == old(self).key(e)
                        && final(self).list(e) == old(self).list(e)
                &&& final(self).key(old(self).dictionary.len() as int) == token@
                &&& final(self).list(old(self).dictionary.len() as int) == seq![posting]
            },
    {
        match self.find(&token) {
            Some(e) => {
                let ghost before = self.list(e as int);
                let ghost keys = self.dictionary@.map_values(|x: (String, Vec<Posting>)| x.0@);
                self.dictionary[e].1.push(posting);
                assert forall|j: int| 0 <= j < self.dictionary.len() implies self.key(j)
                    == keys[j] by {}
                assert(forall|f: int|
                    0 <= f < self.dictionary.len() && f != e ==> self.list(f) == old(self).list(f));
                proof {
                    let ei = e as int;
                    assert(self.list(ei) == before.push(posting));
                    assert forall|t: Seq<char>, q: Posting|
                        #[trigger] self.holds(t, q) <==> old(self).holds(t, q) || (t == token@ && q
                            == posting) by {
                        if self.holds(t, q) {
                            let (e2, k2) = choose|e2: int, k2: int|
                                0 <= e2 < self.dictionary.len() && self.key(e2) == t && 0 <= k2
                                    < self.list(e2).len() && self.list(e2)[k2] == q;
                            if e2 == ei {
                                if k2 < before.len() {
                                    assert(old(self).list(ei)[k2] == q);
                                }
                            } else {
                                assert(old(self).list(e2)[k2] == q);
                            }
                        }
                        if old(self).holds(t, q) {
                            let (e2, k2) = choose|e2: int, k2: int|
                                0 <= e2 < old(self).dictionary.len() && old(self).key(e2) == t && 0
                                    <= k2 < old(self).list(e2).len() && old(self).list(e2)[k2] == q;
                            assert(self.list(e2)[k2] == q);
                        }
                        if t == token@ && q == posting {
                            assert(self.list(ei)[before.len() as int] == q);
                        }
                    }
                    if old(self).wf() && old(self).doc_lengths@.contains_key(posting.doc_id)
                        && old(self).doc_titles@.contains_key(posting.doc_id) && (forall|q: Posting|
                        old(self).holds(token@, q) ==> q.doc_id < posting.doc_id) && (forall|
                        f: int,
                    |
                        0 <= f < old(self).dictionary.len() && old(self).key(f) == token@
                            ==> old(self).list(f).len() < old(self).n) {
                        assert forall|j: int| 0 <= j < before.len() implies before[j].doc_id
                            < posting.doc_id by {
                            assert(old(self).holds(token@, before[j]));
                        }
                        assert(ascending(self.list(ei)));
                        assert forall|j: int| 0 <= j < self.dictionary.len() implies self.key(j)
                            == old(self).key(j) by {
                            assert(keys[j] == old(self).dictionary@[j].0@);
                        }
                        assert(self.list(ei).len() <= self.n);
                        assert forall|f: int, k: int|
                            0 <= f < self.dictionary.len() && 0 <= k < self.list(f).len()
                                implies self.doc_lengths@.contains_key(
                            #[trigger] self.list(f)[k].doc_id,
                        ) && self.doc_titles@.contains_key(self.list(f)[k].doc_id) by {
                            if f == ei {
                                if k < before.len() {
                                    assert(old(self).list(ei)[k] == self.list(ei)[k]);
                                }
                            } else {
                                assert(old(self).list(f)[k] == self.list(f)[k]);
                            }
                        }
                        assert forall|f: int|
                            0 <= f < self.dictionary.len() implies ascending(
                            #[trigger] self.list(f),
                        ) && 0 < self.list(f).len() <= self.n by {
                            if f != ei {
                                assert(self.list(f) == old(self).list(f));
                            }
                        }
                    }
                }
            },
            None => {
                let mut list: Vec<Posting> = Vec::new();
                list.push(posting);
                assert(list@ =~= seq![posting]);
                let ghost n0 = self.dictionary.len() as int;
                self.dictionary.push((token, list));
                proof {
                    assert forall|f: int| 0 <= f < n0 implies self.key(f) == old(self).key(f)
                        && self.list(f) == old(self).list(f) by {
                        assert(self.dictionary@[f] == old(self).dictionary@[f]);
                    }
                    assert forall|t: Seq<char>, q: Posting|
                        #[trigger] self.holds(t, q) <==> old(self).holds(t, q) || (t == token@ && q
                            == posting) by {
                        if self.holds(t, q) {
                            let (e2, k2) = choose|e2: int, k2: int|
                                0 <= e2 < self.dictionary.len() && self.key(e2) == t && 0 <= k2
                                    < self.list(e2).len() && self.list(e2)[k2] == q;
                            if e2 < n0 {
                                assert(old(self).list(e2)[k2] == q);
                            }
                        }
                        if old(self).holds(t, q) {
                            let (e2, k2) = choose|e2: int, k2: int|
                                0 <= e2 < old(self).dictionary.len() && old(self).key(e2) == t && 0
                                    <= k2 < old(self).list(e2).len() && old(self).list(e2)[k2] == q;
                            assert(self.list(e2)[k2] == q);
                        }
                        if t == token@ && q == posting {
                            assert(self.list(n0)[0] == q);
                        }
                    }
                    if old(self).wf() && 0 < old(self).n && old(self).doc_lengths@.contains_key(
                        posting.doc_id,
                    ) && old(self).doc_titles@.contains_key(posting.doc_id) {
                        assert forall|a: int, b: int|
                            0 <= a < self.dictionary.len() && 0 <= b < self.dictionary.len() && a
                                != b implies self.key(a) != self.key(b) by {
                            if a == n0 {
                                assert(!old(self).has_key(token@));
                                assert(old(self).key(b) != token@);
                            } else if b == n0 {
                                assert(old(self).key(a) != token@);
                            }
                        }
                        assert forall|f: int, k: int|
                            0 <= f < self.dictionary.len() && 0 <= k < self.list(f).len()
                                implies self.doc_lengths@.contains_key(
                            #[trigger] self.list(f)[k].doc_id,
                        ) && self.doc_titles@.contains_key(self.list(f)[k].doc_id) by {
                            if f < n0 {
                                assert(old(self).list(f)[k] == self.list(f)[k]);
                            }
                        }
                        assert forall|f: int|
                            0 <= f < self.dictionary.len() implies ascending(
                            #[trigger] self.list(f),
                        ) && 0 < self.list(f).len() <= self.n by {
                            if f < n0 {
                                assert(self.list(f) == old(self).list(f));
                            }
                        }
                    }
                }
            },
        }
    }
}

} // verus!
