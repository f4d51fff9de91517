use vstd::prelude::*;
use std::collections::HashMap;
use vstd::std_specs::hash::spec_hash_map_iter;
use vstd::std_specs::iter::IteratorSpec;
use crate::search::{MailSearchRepository, SearchError, SearchResult};

verus! {

/// A hit of a search over identifiers that are positions.
pub type Hit = SearchResult<usize>;

/// `hits` names the identifier `id`.
pub open spec fn names(hits: Seq<Hit>, id: usize) -> bool {
    exists|i: int| 0 <= i < hits.len() && (#[trigger] hits[i]).id == id
}

/// The best score comes first.
pub open spec fn descending(hits: Seq<Hit>) -> bool {
    forall|i: int, j: int|
        0 <= i <= j < hits.len() ==> (#[trigger] hits[i]).score >= (#[trigger] hits[j]).score
}

/// `hits` is the best `limit` of the candidates whose scores are `scores`: each hit is a
/// candidate with its score, no candidate is named twice, the best comes first, no more than
/// `limit` are held and none is left out while there is room, and no candidate that is left
/// out scores higher than a hit.
pub open spec fn is_ranking(hits: Seq<Hit>, scores: Map<usize, i64>, limit: nat) -> bool {
    &&& hits.len() <= limit
    &&& forall|i: int|
        0 <= i < hits.len() ==> scores.contains_key((#[trigger] hits[i]).id)
            && scores[hits[i].id] == hits[i].score
    &&& forall|i: int, j: int|
        0 <= i < j < hits.len() ==> (#[trigger] hits[i]).id != (#[trigger] hits[j]).id
    &&& descending(hits)
    &&& hits.len() < limit ==> forall|id: usize| #[trigger]
        scores.contains_key(id) ==> names(hits, id)
    &&& forall|id: usize, i: int|
        #[trigger] scores.contains_key(id) && !names(hits, id) && 0 <= i < hits.len() ==> (
        #[trigger] hits[i]).score >= scores[id]
}

/// Puts `candidate` into a descending run of hits, after the hits that score as high.
fn insert_sorted(held: &mut Vec<Hit>, candidate: Hit) -> (at: usize)
    requires
        descending(old(held)@),
    ensures
        at <= old(held)@.len(),
        final(held)@ == old(held)@.insert(at as int, candidate),
        descending(final(held)@),
{
    let mut at: usize = 0;
    while at < held.len() && held[at].score >= candidate.score
        invariant
            at <= held.len(),
            held@ == old(held)@,
            forall|i: int| 0 <= i < at ==> (#[trigger] held@[i]).score >= candidate.score,
        decreases held.len() - at,
    {
        at += 1;
    }
    let ghost before = held@;
    held.insert(at, candidate);
    assert forall|i: int, j: int| 0 <= i <= j < held@.len() implies (#[trigger] held@[i]).score >= (
    #[trigger] held@[j]).score by {
        let a = if i < at { before[i] } else if i == at { candidate } else { before[i - 1] };
        let b = if j < at { before[j] } else if j == at { candidate } else { before[j - 1] };
        assert(held@[i] == a);
        assert(held@[j] == b);
        if at < before.len() {
            assert(before[at as int].score < candidate.score);
        }
    }
    at
}

/// Offers one more candidate to the best `limit` held in `held`.
fn offer_into(held: &mut Vec<Hit>, limit: usize, candidate: Hit)
    requires
        descending(old(held)@),
        old(held)@.len() <= limit,
    ensures
        descending(final(held)@),
        final(held)@.len() == if old(held)@.len() < limit {
            old(held)@.len() + 1
        } else {
            old(held)@.len()
        },
        forall|scores: Map<usize, i64>|
            is_ranking(old(held)@, scores, limit as nat) && !scores.contains_key(candidate.id)
                ==> #[trigger] is_ranking(
                final(held)@,
                scores.insert(candidate.id, candidate.score),
                limit as nat,
            ),
{
    let ghost before = held@;
    if held.len() < limit {
        let at = insert_sorted(held, candidate);
        proof {
            lemma_inserted(before, held@, at as int, candidate);
            assert forall|scores: Map<usize, i64>|
                is_ranking(before, scores, limit as nat) && !scores.contains_key(
                    candidate.id,
                ) implies #[trigger] is_ranking(
                held@,
                scores.insert(candidate.id, candidate.score),
                limit as nat,
            ) by {
                lemma_offer_with_room(before, held@, at as int, candidate, scores, limit as nat);
            }
        }
    } else if limit > 0 && held[limit - 1].score < candidate.score {
        held.pop();
        let ghost kept = held@;
        assert(kept == before.drop_last());
        assert(descending(kept));
        let at = insert_sorted(held, candidate);
        proof {
            lemma_inserted(kept, held@, at as int, candidate);
            assert forall|scores: Map<usize, i64>|
                is_ranking(before, scores, limit as nat) && !scores.contains_key(
                    candidate.id,
                ) implies #[trigger] is_ranking(
                held@,
                scores.insert(candidate.id, candidate.score),
                limit as nat,
            ) by {
                lemma_offer_replacing(before, held@, at as int, candidate, scores, limit as nat);
            }
        }
    } else {
        proof {
            assert forall|scores: Map<usize, i64>|
                is_ranking(before, scores, limit as nat) && !scores.contains_key(
                    candidate.id,
                ) implies #[trigger] is_ranking(
                held@,
                scores.insert(candidate.id, candidate.score),
                limit as nat,
            ) by {
                let after = scores.insert(candidate.id, candidate.score);
                assert forall|id: usize, i: int|
                    #[trigger] after.contains_key(id) && !names(held@, id) && 0 <= i < held@.len() implies (
                #[trigger] held@[i]).score >= after[id] by {
                    if id == candidate.id {
                        assert(held@[i].score >= held@[limit - 1].score);
                    }
                }
            }
        }
    }
}

proof fn lemma_offer_with_room(
    before: Seq<Hit>,
    held: Seq<Hit>,
    at: int,
    candidate: Hit,
    scores: Map<usize, i64>,
    limit: nat,
)
    requires
        0 <= at <= before.len(),
        held == before.insert(at, candidate),
        descending(held),
        before.len() < limit,
        is_ranking(before, scores, limit),
        !scores.contains_key(candidate.id),
    ensures
        is_ranking(held, scores.insert(candidate.id, candidate.score), limit),
{
    let after = scores.insert(candidate.id, candidate.score);
    lemma_inserted(before, held, at, candidate);
    assert forall|id: usize| #[trigger] after.contains_key(id) implies names(held, id) by {
        if id == candidate.id {
            assert(held[at].id == id);
        } else {
            assert(scores.contains_key(id));
            let i = choose|i: int| 0 <= i < before.len() && (#[trigger] before[i]).id == id;
            let k = if i < at {
                i
            } else {
                i + 1
            };
            assert(held[k].id == id);
        }
    }
    assert forall|i: int| 0 <= i < held.len() implies after.contains_key((#[trigger] held[i]).id)
        && after[held[i].id] == held[i].score by {
        if i != at {
            let j = if i < at {
                i
            } else {
                i - 1
            };
            assert(held[i] == before[j]);
        }
    }
    assert forall|i: int, j: int| 0 <= i < j < held.len() implies (#[trigger] held[i]).id != (
    #[trigger] held[j]).id by {
        let a = if i < at {
            i
        } else {
            i - 1
        };
        let b = if j < at {
            j
        } else {
            j - 1
        };
        if i != at {
            assert(held[i] == before[a]);
        }
        if j != at {
            assert(held[j] == before[b]);
        }
    }
}

proof fn lemma_offer_replacing(
    before: Seq<Hit>,
    held: Seq<Hit>,
    at: int,
    candidate: Hit,
    scores: Map<usize, i64>,
    limit: nat,
)
    requires
        limit > 0,
        before.len() == limit,
        0 <= at <= before.len() - 1,
        held == before.drop_last().insert(at, candidate),
        descending(held),
        before.last().score < candidate.score,
        is_ranking(before, scores, limit),
        !scores.contains_key(candidate.id),
    ensures
        is_ranking(held, scores.insert(candidate.id, candidate.score), limit),
{
    let after = scores.insert(candidate.id, candidate.score);
    let kept = before.drop_last();
    let worst = before.last();
    lemma_inserted(kept, held, at, candidate);
    assert forall|i: int| 0 <= i < held.len() implies after.contains_key((#[trigger] held[i]).id)
        && after[held[i].id] == held[i].score by {
        if i != at {
            let j = if i < at {
                i
            } else {
                i - 1
            };
            assert(held[i] == kept[j]);
            assert(kept[j] == before[j]);
        }
    }
    assert forall|i: int, j: int| 0 <= i < j < held.len() implies (#[trigger] held[i]).id != (
    #[trigger] held[j]).id by {
        let a = if i < at {
            i
        } else {
            i - 1
        };
        let b = if j < at {
            j
        } else {
            j - 1
        };
        if i != at {
            assert(held[i] == kept[a]);
            assert(kept[a] == before[a]);
        }
        if j != at {
            assert(held[j] == kept[b]);
            assert(kept[b] == before[b]);
        }
    }
    assert forall|id: usize, i: int|
        #[trigger] after.contains_key(id) && !names(held, id) && 0 <= i < held.len() implies (
    #[trigger] held[i]).score >= after[id] by {
        assert(id != candidate.id) by {
            if id == candidate.id {
                assert(held[at].id == id);
            }
        }
        assert(scores.contains_key(id));
        // Whatever is left out scores no higher than the one that has just left.
        assert(scores[id] <= worst.score) by {
            if names(before, id) {
                let j = choose|j: int| 0 <= j < before.len() && (#[trigger] before[j]).id == id;
                if j < kept.len() {
                    let k = if j < at {
                        j
                    } else {
                        j + 1
                    };
                    assert(held[k] == kept[j]);
                    assert(kept[j] == before[j]);
                    assert(held[k].id == id);
                }
            } else {
                assert(before[limit - 1].score >= scores[id]);
            }
        }
        if i != at {
            let j = if i < at {
                i
            } else {
                i - 1
            };
            assert(held[i] == kept[j]);
            assert(kept[j] == before[j]);
            assert(before[j].score >= before[limit - 1].score);
        }
    }
}

/// What inserting a new candidate into a run of hits keeps.
proof fn lemma_inserted(before: Seq<Hit>, after: Seq<Hit>, at: int, candidate: Hit)
    requires
        0 <= at <= before.len(),
        after == before.insert(at, candidate),
    ensures
        after.len() == before.len() + 1,
        after[at] == candidate,
        forall|i: int| 0 <= i < at ==> #[trigger] after[i] == before[i],
        forall|i: int| at < i < after.len() ==> #[trigger] after[i] == before[i - 1],
        forall|i: int| 0 <= i < at ==> #[trigger] before[i] == after[i],
        forall|i: int| at <= i < before.len() ==> #[trigger] before[i] == after[i + 1],
{
}

/// The best of the candidates offered so far, at most `limit` of them, the best first.
pub struct TopHits {
    held: Vec<Hit>,
    limit: usize,
}

impl View for TopHits {
    type V = Seq<Hit>;

    closed spec fn view(&self) -> Seq<Hit> {
        self.held@
    }
}

impl TopHits {
    #[verifier::type_invariant]
    spec fn bounded(self) -> bool {
        descending(self.held@) && self.held@.len() <= self.limit
    }

    /// The number of hits that are held at most.
    pub closed spec fn limit(&self) -> nat {
        self.limit as nat
    }

    /// Room for the best `limit` candidates, none of which has been offered yet.
    pub fn new(limit: usize) -> (top: Self)
        ensures
            top@ == Seq::<Hit>::empty(),
            top.limit() == limit,
    {
        TopHits { held: Vec::new(), limit }
    }

    /// Offers one more candidate. While there is room the candidate is taken; once `limit`
    /// are held it takes the place of the worst of them only if it scores strictly higher.
    ///
    /// Whatever ranking was held before, the ranking of the same candidates and the new one
    /// is held afterwards.
    pub fn offer(&mut self, candidate: Hit)
        ensures
            final(self).limit() == old(self).limit(),
            final(self)@.len() == if old(self)@.len() < old(self).limit() {
                old(self)@.len() + 1
            } else {
                old(self)@.len()
            },
            forall|scores: Map<usize, i64>|
                is_ranking(old(self)@, scores, old(self).limit()) && !scores.contains_key(
                    candidate.id,
                ) ==> #[trigger] is_ranking(
                    final(self)@,
                    scores.insert(candidate.id, candidate.score),
                    old(self).limit(),
                ),
    {
        proof {
            use_type_invariant(&*self);
        }
        // The hits leave the ranking while they change.
        let mut held: Vec<Hit> = Vec::new();
        std::mem::swap(&mut self.held, &mut held);
        offer_into(&mut held, self.limit, candidate);
        std::mem::swap(&mut self.held, &mut held);
    }

    /// The hits that are held, the best first.
    pub fn into_hits(self) -> (hits: Vec<Hit>)
        ensures
            hits@ == self@,
            descending(hits@),
            hits@.len() <= self.limit(),
    {
        proof {
            use_type_invariant(&self);
        }
        self.held
    }
}

/// An index held in memory. Its entries are ranked by a similarity that is given when the
/// index is made: a function from the vector asked for and a stored vector to a score, a
/// higher score being a closer match.
pub struct MemoryCosinus<V, F: Fn(&V, &V) -> i64> {
    vectors: HashMap<usize, V>,
    similarity: F,
}

impl<V, F: Fn(&V, &V) -> i64> View for MemoryCosinus<V, F> {
    type V = Map<usize, V>;

    closed spec fn view(&self) -> Map<usize, V> {
        self.vectors@
    }
}

/// `scores` gives every entry of `entries` a score that `similarity` may return for it
/// against `ask`.
pub open spec fn scored_by<V, F: Fn(&V, &V) -> i64>(
    similarity: F,
    ask: &V,
    entries: Map<usize, V>,
    scores: Map<usize, i64>,
) -> bool {
    &&& scores.dom() == entries.dom()
    &&& forall|id: usize| #[trigger]
        entries.contains_key(id) ==> call_ensures(similarity, (ask, &entries[id]), scores[id])
}

impl<V, F: Fn(&V, &V) -> i64> MemoryCosinus<V, F> {
    #[verifier::type_invariant]
    spec fn total(self) -> bool {
        forall|a: &V, b: &V| call_requires(self.similarity, (a, b))
    }

    /// The similarity that ranks the entries.
    pub closed spec fn measure(&self) -> F {
        self.similarity
    }

    /// An empty index that ranks by `similarity`, which must accept every pair of vectors.
    pub fn new(similarity: F) -> (index: Self)
        requires
            forall|a: &V, b: &V| call_requires(similarity, (a, b)),
        ensures
            index@ == Map::<usize, V>::empty(),
            index.measure() == similarity,
    {
        broadcast use vstd::std_specs::hash::group_hash_axioms;

        MemoryCosinus { vectors: HashMap::new(), similarity }
    }
}

impl<V, F: Fn(&V, &V) -> i64> MailSearchRepository for MemoryCosinus<V, F> {
    type EmailId = usize;

    type Vector = V;

    open spec fn entries(&self) -> Map<usize, V> {
        self@
    }

    /// Stores `email_vector` under `id`, in place of what was stored there. Never fails.
    fn index(&mut self, id: usize, email_vector: V) -> (res: Result<(), SearchError>)
        ensures
            res is Ok,
            final(self)@ == old(self)@.insert(id, email_vector),
            final(self).measure() == old(self).measure(),
    {
        broadcast use vstd::std_specs::hash::group_hash_axioms;

        proof {
            use_type_invariant(&*self);
        }
        // The map leaves the index while it changes: the similarity stays where it is.
        let mut vectors: HashMap<usize, V> = HashMap::new();
        std::mem::swap(&mut self.vectors, &mut vectors);
        vectors.insert(id, email_vector);
        std::mem::swap(&mut self.vectors, &mut vectors);
        Ok(())
    }

    /// Ranks every entry against `ask` and returns the best `nb_results`, the best first.
    /// Never fails.
    fn search(&self, ask: &V, nb_results: usize) -> (res: Result<Vec<Hit>, SearchError>)
        ensures
            res is Ok,
            res->Ok_0@.len() == if self@.dom().len() < nb_results {
                self@.dom().len()
            } else {
                nb_results as nat
            },
            exists|scores: Map<usize, i64>|
                scored_by(self.measure(), ask, self@, scores) && #[trigger] is_ranking(
                    res->Ok_0@,
                    scores,
                    nb_results as nat,
                ),
    {
        broadcast use vstd::std_specs::hash::group_hash_axioms;

        proof {
            use_type_invariant(self);
        }
        let mut top = TopHits::new(nb_results);
        let ghost mut scores: Map<usize, i64> = Map::empty();
        for entry in it: self.vectors.iter()
            invariant
                it.seq() == spec_hash_map_iter(&self.vectors).remaining(),
                it.seq().no_duplicates(),
                forall|a: &V, b: &V| call_requires(self.similarity, (a, b)),
                forall|id: usize|
                    scores.contains_key(id) <==> exists|j: int|
                        0 <= j < it.index() && *(#[trigger] it.seq()[j]).0 == id,
                forall|id: usize| #[trigger]
                    scores.contains_key(id) ==> self@.contains_key(id) && call_ensures(
                        self.similarity,
                        (ask, &self@[id]),
                        scores[id],
                    ),
                top.limit() == nb_results,
                is_ranking(top@, scores, nb_results as nat),
                top@.len() == if it.index() < nb_results {
                    it.index()
                } else {
                    nb_results as int
                },
        {
            let ghost seen = scores;
            let ghost at = it.index();
            let id: usize = *entry.0;
            proof {
                let v = it.seq();
                assert(self@.contains_key(*v[at].0) && self@[*v[at].0] == *v[at].1);
                if seen.contains_key(id) {
                    let j = choose|j: int| 0 <= j < at && *(#[trigger] v[j]).0 == id;
                    assert(self@.contains_key(*v[j].0) && self@[*v[j].0] == *v[j].1);
                    assert(v[j] == v[at]);
                }
                assert(!seen.contains_key(id));
            }
            let score = (self.similarity)(ask, entry.1);
            let candidate = SearchResult { id, score };
            let ghost offered = candidate;
            top.offer(candidate);
            proof {
                scores = seen.insert(id, score);
                assert(is_ranking(
                    top@,
                    seen.insert(offered.id, offered.score),
                    nb_results as nat,
                ));
                assert forall|k: usize| scores.contains_key(k) implies exists|j: int|
                    0 <= j < at + 1 && *(#[trigger] it.seq()[j]).0 == k by {
                    if k == id {
                        assert(*it.seq()[at].0 == k);
                    } else {
                        let j = choose|j: int| 0 <= j < at && *(#[trigger] it.seq()[j]).0 == k;
                        assert(*it.seq()[j].0 == k);
                    }
                }
            }
        }
        proof {
            let v = spec_hash_map_iter(&self.vectors).remaining();
            assert(scores.dom() =~= self@.dom()) by {
                assert forall|id: usize| self@.contains_key(id) implies scores.contains_key(id) by {
                    assert(v.contains((&id, &self@[id])));
                    let j = choose|j: int| 0 <= j < v.len() && v[j] == (&id, &self@[id]);
                    assert(*v[j].0 == id);
                }
            }
            assert(scored_by(self.measure(), ask, self@, scores));
        }
        Ok(top.into_hits())
    }
}

} // verus!
