use vstd::prelude::*;
use crate::embedding::local::texts;
use crate::embedding::{Embedder, EmbeddingError};
use crate::search::memory_cosinus::{is_ranking, scored_by, Hit, MemoryCosinus};
use crate::search::{MailSearchRepository, SearchError, SearchResult};
use crate::storage::{MailStorageRepository, MailboxError};

verus! {

/// A message in readable form: its headers decoded and its bodies resolved.
#[derive(Debug)]
pub struct Email<EmailId> {
    pub id: EmailId,
    pub from: String,
    /// Seconds since the Unix epoch in UTC, and the nanoseconds within that second.
    pub datetime: (i64, u32),
    pub subject: String,
    pub body_text: Option<String>,
    pub body_html: Option<String>,
}

/// The mathematical value of an [`Email`].
pub struct Message<EmailId> {
    pub id: EmailId,
    pub from: Seq<char>,
    pub datetime: (i64, u32),
    pub subject: Seq<char>,
    pub body_text: Option<Seq<char>>,
    pub body_html: Option<Seq<char>>,
}

/// The value of an optional text.
pub open spec fn text_view(text: Option<String>) -> Option<Seq<char>> {
    match text {
        Some(t) => Some(t@),
        None => None,
    }
}

impl<EmailId> View for Email<EmailId> {
    type V = Message<EmailId>;

    open spec fn view(&self) -> Message<EmailId> {
        Message {
            id: self.id,
            from: self.from@,
            datetime: self.datetime,
            subject: self.subject@,
            body_text: text_view(self.body_text),
            body_html: text_view(self.body_html),
        }
    }
}

/// What can go wrong in the service as a whole.
#[derive(Debug, Clone, Copy, PartialEq, Eq, Structural)]
pub enum MailboxServiceError {
    InitError,
    SearchError,
}

impl MailboxServiceError {
    /// The variant's name, as text.
    pub open spec fn name(self) -> Seq<char> {
        match self {
            MailboxServiceError::InitError => "InitError"@,
            MailboxServiceError::SearchError => "SearchError"@,
        }
    }

    /// Renders the error as the name of its variant.
    pub fn to_string(&self) -> (text: String)
        ensures
            text@ == self.name(),
    {
        match self {
            MailboxServiceError::InitError => "InitError".to_owned(),
            MailboxServiceError::SearchError => "SearchError".to_owned(),
        }
    }
}

/// Why a search failed: the step that failed, with its own error.
#[derive(Debug, Clone, Copy, PartialEq, Eq, Structural)]
pub enum SearchFailure {
    /// The request could not be embedded.
    Embedding(EmbeddingError),
    /// The index could not rank.
    Index(SearchError),
    /// A hit could not be resolved.
    Storage(MailboxError),
}

/// The number of messages that are embedded in one call of the embedder.
pub const INDEX_BUFFER_SIZE: usize = 600;

/// The number of hits that a search returns at most.
pub const LIMIT_SEARCH_RESULTS: usize = 5;

/// The text by which a message is indexed: its plain body, or else its HTML body.
pub open spec fn indexed_text<EmailId>(message: Message<EmailId>) -> Option<Seq<char>> {
    if message.body_text is Some {
        message.body_text
    } else {
        message.body_html
    }
}

/// The messages that have a body, each as its identifier and the text by which it is
/// indexed, in the order of the messages.
pub open spec fn with_body(messages: Seq<Message<usize>>) -> Seq<(usize, Seq<char>)>
    decreases messages.len(),
{
    if messages.len() == 0 {
        Seq::empty()
    } else {
        let earlier = with_body(messages.drop_last());
        match indexed_text(messages.last()) {
            Some(text) => earlier.push((messages.last().id, text)),
            None => earlier,
        }
    }
}

/// The values of a run of messages.
pub open spec fn messages(emails: Seq<Email<usize>>) -> Seq<Message<usize>> {
    emails.map_values(|e: Email<usize>| e@)
}

/// Identifiers and texts, side by side.
pub open spec fn paired(ids: Seq<usize>, bodies: Seq<String>) -> Seq<(usize, Seq<char>)> {
    Seq::new(ids.len(), |i: int| (ids[i], bodies[i]@))
}

/// Keeps the messages that have a body and splits them into identifiers and texts: the
/// plain body where there is one, or else the HTML body.
pub fn emails_to_ids_and_bodies_if_body_exists(buf: Vec<Email<usize>>) -> (res: (
    Vec<usize>,
    Vec<String>,
))
    ensures
        res.0@.len() == res.1@.len(),
        paired(res.0@, res.1@) == with_body(messages(buf@)),
{
    let ghost all = messages(buf@);
    let mut ids: Vec<usize> = Vec::new();
    let mut bodies: Vec<String> = Vec::new();
    assert(all.take(0) =~= Seq::<Message<usize>>::empty());
    for email in it: buf
        invariant
            it.seq() == buf@,
            all == messages(buf@),
            ids@.len() == bodies@.len(),
            paired(ids@, bodies@) == with_body(all.take(it.index())),
    {
        let ghost at = it.index();
        let ghost before = paired(ids@, bodies@);
        proof {
            assert(all.take(at + 1).drop_last() =~= all.take(at));
            assert(all.take(at + 1).last() == email@);
        }
        let id = email.id;
        match email.body_text {
            Some(text) => {
                ids.push(id);
                bodies.push(text);
                assert(paired(ids@, bodies@) =~= before.push((id, text@)));
            },
            None => match email.body_html {
                Some(html) => {
                    ids.push(id);
                    bodies.push(html);
                    assert(paired(ids@, bodies@) =~= before.push((id, html@)));
                },
                None => {},
            },
        }
    }
    assert(all.take(all.len() as int) =~= all);
    (ids, bodies)
}

/// The index after a batch has gone in: each vector under the identifier at its place,
/// the later places first, so that of two vectors for one identifier the earlier stays.
pub open spec fn with_batch<V>(entries: Map<usize, V>, ids: Seq<usize>, vectors: Seq<V>) -> Map<
    usize,
    V,
>
    decreases ids.len(),
{
    if ids.len() == 0 || vectors.len() == 0 {
        entries
    } else {
        with_batch(entries.insert(ids.last(), vectors.last()), ids.drop_last(), vectors.drop_last())
    }
}

/// The index after the embedder has answered for a batch: the batch goes in if there is
/// one vector for each identifier, and nothing changes if the embedder failed or gave
/// another number of vectors.
pub open spec fn after_batch<V>(
    entries: Map<usize, V>,
    ids: Seq<usize>,
    embedded: Result<Vec<V>, EmbeddingError>,
) -> Map<usize, V> {
    match embedded {
        Ok(vectors) => if vectors@.len() == ids.len() {
            with_batch(entries, ids, vectors@)
        } else {
            entries
        },
        Err(_) => entries,
    }
}

/// A batch only adds entries under its identifiers, and leaves every other entry alone.
proof fn lemma_with_batch_frame<V>(entries: Map<usize, V>, ids: Seq<usize>, vectors: Seq<V>)
    ensures
        forall|id: usize| #[trigger]
            entries.contains_key(id) ==> with_batch(entries, ids, vectors).contains_key(id),
        forall|id: usize| #[trigger]
            with_batch(entries, ids, vectors).contains_key(id) ==> entries.contains_key(id)
                || ids.contains(id),
        forall|id: usize|
            !ids.contains(id) && #[trigger] entries.contains_key(id) ==> with_batch(
                entries,
                ids,
                vectors,
            )[id] == entries[id],
    decreases ids.len(),
{
    if ids.len() > 0 && vectors.len() > 0 {
        let next = entries.insert(ids.last(), vectors.last());
        let after = with_batch(entries, ids, vectors);
        assert(after == with_batch(next, ids.drop_last(), vectors.drop_last()));
        lemma_with_batch_frame(next, ids.drop_last(), vectors.drop_last());
        assert(ids.contains(ids.last())) by {
            assert(ids[ids.len() - 1] == ids.last());
        }
        assert forall|id: usize| ids.drop_last().contains(id) implies ids.contains(id) by {
            let k = choose|k: int| 0 <= k < ids.drop_last().len() && ids.drop_last()[k] == id;
            assert(ids[k] == id);
        }
        assert forall|id: usize| #[trigger] entries.contains_key(id) implies after.contains_key(
            id,
        ) by {
            assert(next.contains_key(id));
        }
        assert forall|id: usize| #[trigger] after.contains_key(id) implies entries.contains_key(id)
            || ids.contains(id) by {
            if !next.contains_key(id) {
                assert(ids.drop_last().contains(id));
            }
        }
        assert forall|id: usize|
            !ids.contains(id) && #[trigger] entries.contains_key(id) implies after[id]
            == entries[id] by {
            assert(next.contains_key(id));
            assert(!ids.drop_last().contains(id));
            assert(id != ids.last());
            assert(next[id] == entries[id]);
        }
    }
}

/// Puts what the embedder answered for a batch into the index, and says whether the batch
/// went in.
pub fn index_batch<V, F: Fn(&V, &V) -> i64>(
    search_repository: &mut MemoryCosinus<V, F>,
    ids: Vec<usize>,
    embedded: Result<Vec<V>, EmbeddingError>,
) -> (indexed: bool)
    ensures
        final(search_repository)@ == after_batch(old(search_repository)@, ids@, embedded),
        final(search_repository).measure() == old(search_repository).measure(),
        indexed == (embedded is Ok && embedded->Ok_0@.len() == ids@.len()),
{
    match embedded {
        Ok(vectors) => {
            if vectors.len() != ids.len() {
                return false;
            }
            let ghost all_ids = ids@;
            let ghost all_vectors = vectors@;
            let mut pending_ids = ids;
            let mut pending_vectors = vectors;
            while pending_ids.len() > 0
                invariant
                    pending_ids@.len() == pending_vectors@.len(),
                    search_repository.measure() == old(search_repository).measure(),
                    with_batch(search_repository@, pending_ids@, pending_vectors@) == with_batch(
                        old(search_repository)@,
                        all_ids,
                        all_vectors,
                    ),
                decreases pending_ids@.len(),
            {
                let ghost before_ids = pending_ids@;
                let ghost before_vectors = pending_vectors@;
                match (pending_ids.pop(), pending_vectors.pop()) {
                    (Some(id), Some(vector)) => {
                        assert(pending_ids@ == before_ids.drop_last());
                        assert(pending_vectors@ == before_vectors.drop_last());
                        let _ = search_repository.index(id, vector);
                    },
                    _ => {},
                }
            }
            true
        },
        Err(_) => false,
    }
}

/// The messages that the identifiers from `from` up to `to` resolve to, in order; an
/// identifier that does not resolve is passed over.
pub open spec fn resolved_between<T: MailStorageRepository<EmailId = usize>>(
    storage: T,
    from: int,
    to: int,
) -> Seq<Message<usize>>
    decreases to - from,
{
    if to <= from || to <= 0 {
        Seq::empty()
    } else {
        let earlier = resolved_between(storage, from, to - 1);
        match storage.resolve((to - 1) as usize) {
            Ok(message) => earlier.push(message),
            Err(_) => earlier,
        }
    }
}

/// Where the batch that starts at the identifier `from` ends: behind the identifier that
/// gives the batch its last of `size` messages, or at `upto` where the walk ends before.
pub open spec fn batch_end<T: MailStorageRepository<EmailId = usize>>(
    storage: T,
    from: int,
    size: int,
    upto: int,
) -> int
    decreases upto - from,
{
    if from < 0 || from >= upto || size <= 0 {
        from
    } else if storage.resolve(from as usize) is Ok {
        batch_end(storage, from + 1, size - 1, upto)
    } else {
        batch_end(storage, from + 1, size, upto)
    }
}

/// A batch ends where it starts or later, and never beyond the end of the walk unless it
/// starts there.
proof fn lemma_batch_end_bounds<T: MailStorageRepository<EmailId = usize>>(
    storage: T,
    from: int,
    size: int,
    upto: int,
)
    requires
        0 <= from,
    ensures
        from <= batch_end(storage, from, size, upto),
        batch_end(storage, from, size, upto) <= upto || batch_end(storage, from, size, upto)
            == from,
        resolved_between(storage, from, batch_end(storage, from, size, upto)).len() > 0 ==> from
            < batch_end(storage, from, size, upto),
    decreases upto - from,
{
    if from < upto && size > 0 {
        if storage.resolve(from as usize) is Ok {
            lemma_batch_end_bounds(storage, from + 1, size - 1, upto);
        } else {
            lemma_batch_end_bounds(storage, from + 1, size, upto);
        }
    }
}

/// Takes the next batch of a walk over the messages of `storage` that stops before the
/// identifier `upto`: the messages that resolve from the identifier `from` on, until there
/// are `size` of them or the walk is at its end. Returns the batch and the identifier at
/// which the walk goes on.
pub fn take_batch<T: MailStorageRepository<EmailId = usize>>(
    storage: &T,
    from: usize,
    size: usize,
    upto: usize,
) -> (res: (Vec<Email<usize>>, usize))
    ensures
        res.1 == batch_end(*storage, from as int, size as int, upto as int),
        messages(res.0@) == resolved_between(*storage, from as int, res.1 as int),
        res.0@.len() <= size,
        res.0@.len() > 0 ==> from < res.1 <= upto,
        forall|i: int|
            0 <= i < res.0@.len() ==> from <= (#[trigger] res.0@[i]).id < res.1 && storage.resolve(
                res.0@[i].id,
            ) == Ok::<Message<usize>, MailboxError>(res.0@[i]@),
{
    let mut buf: Vec<Email<usize>> = Vec::new();
    let mut next: usize = from;
    assert(messages(buf@) =~= resolved_between(*storage, from as int, next as int));
    while buf.len() < size && next < upto
        invariant
            from <= next,
            next <= upto || next == from,
            buf@.len() <= size,
            batch_end(*storage, from as int, size as int, upto as int) == batch_end(
                *storage,
                next as int,
                size - buf@.len(),
                upto as int,
            ),
            messages(buf@) == resolved_between(*storage, from as int, next as int),
            buf@.len() > 0 ==> from < next,
            forall|i: int|
                0 <= i < buf@.len() ==> from <= (#[trigger] buf@[i]).id < next && storage.resolve(
                    buf@[i].id,
                ) == Ok::<Message<usize>, MailboxError>(buf@[i]@),
        decreases upto - next,
    {
        let ghost before = messages(buf@);
        match storage.get_email(&next) {
            Ok(email) => {
                buf.push(email);
                assert(messages(buf@) =~= before.push(email@));
            },
            Err(_) => {},
        }
        next += 1;
    }
    (buf, next)
}

/// Where the walk over a store ends: at the number of messages that the store reports, or
/// at once where the store fails to report it.
pub open spec fn walk_end(counted: Result<usize, MailboxError>) -> int {
    match counted {
        Ok(count) => count as int,
        Err(_) => 0,
    }
}

/// The identifiers of a run of scored texts.
pub open spec fn ids_of(scored: Seq<(usize, Seq<char>)>) -> Seq<usize> {
    scored.map_values(|p: (usize, Seq<char>)| p.0)
}

/// The texts of a run of scored texts.
pub open spec fn bodies_of(scored: Seq<(usize, Seq<char>)>) -> Seq<Seq<char>> {
    scored.map_values(|p: (usize, Seq<char>)| p.1)
}

/// Indexing the messages from the identifier `from` up to `upto` can turn the index
/// `before` into the index `after`.
///
/// The walk goes batch by batch. The messages of a batch that have a body are handed to the
/// embedder in one call, as their texts in order, and whatever the embedder may answer to
/// that call decides what the batch does to the index. The walk ends with the first batch
/// that is empty.
pub open spec fn indexes<T: MailStorageRepository<EmailId = usize>, E: Embedder>(
    storage: T,
    embedder: E,
    upto: int,
    from: int,
    before: Map<usize, E::Vector>,
    after: Map<usize, E::Vector>,
) -> bool
    decreases upto - from,
    via indexes_decreases::<T, E>
{
    let next = batch_end(storage, from, INDEX_BUFFER_SIZE as int, upto);
    let batch = resolved_between(storage, from, next);
    if from < 0 || batch.len() == 0 {
        after == before
    } else {
        exists|text: &[&str], embedded: Result<Vec<E::Vector>, EmbeddingError>|
            {
                &&& texts(text@) == bodies_of(with_body(batch))
                &&& #[trigger] call_ensures(E::embed, (&embedder, text), embedded)
                &&& indexes(
                    storage,
                    embedder,
                    upto,
                    next,
                    after_batch(before, ids_of(with_body(batch)), embedded),
                    after,
                )
            }
    }
}

#[via_fn]
proof fn indexes_decreases<T: MailStorageRepository<EmailId = usize>, E: Embedder>(
    storage: T,
    embedder: E,
    upto: int,
    from: int,
    before: Map<usize, E::Vector>,
    after: Map<usize, E::Vector>,
) {
    if 0 <= from {
        lemma_batch_end_bounds(storage, from, INDEX_BUFFER_SIZE as int, upto);
    }
}

/// The service: an archive, an index over the vectors of its messages, and the embedder
/// that makes the vectors.
pub struct MailboxService<T: MailStorageRepository<EmailId = usize>, E: Embedder, F: Fn(
    &E::Vector,
    &E::Vector,
) -> i64> {
    pub storage_repository: T,
    pub search_repository: MemoryCosinus<E::Vector, F>,
    pub embedder: E,
}

/// A message can be indexed when it resolves and has a body.
pub open spec fn indexable<T: MailStorageRepository<EmailId = usize>>(storage: T, id: usize) -> bool {
    &&& id < storage.count()
    &&& storage.resolve(id) is Ok
    &&& indexed_text(storage.resolve(id)->Ok_0) is Some
}

/// The hits of a list of scored messages.
pub open spec fn hits_of(found: Seq<(i64, Email<usize>)>) -> Seq<Hit> {
    found.map_values(|f: (i64, Email<usize>)| SearchResult { id: f.1.id, score: f.0 })
}

/// Position of the first hit that does not resolve, or the number of hits when all do.
pub open spec fn first_unresolved<T: MailStorageRepository<EmailId = usize>>(
    storage: T,
    hits: Seq<Hit>,
    from: int,
) -> int
    decreases hits.len() - from,
{
    if from < 0 || from >= hits.len() {
        hits.len() as int
    } else if storage.resolve(hits[from].id) is Err {
        from
    } else {
        first_unresolved(storage, hits, from + 1)
    }
}

/// What hydrating the hits gives: each hit's score with its message, in the order of the
/// hits, or the error of the first hit that does not resolve.
pub open spec fn hydrated<T: MailStorageRepository<EmailId = usize>>(
    storage: T,
    hits: Seq<Hit>,
) -> Result<Seq<(i64, Message<usize>)>, MailboxError> {
    let failed = first_unresolved(storage, hits, 0);
    if failed < hits.len() {
        Err(storage.resolve(hits[failed].id)->Err_0)
    } else {
        Ok(Seq::new(hits.len(), |i: int| (hits[i].score, storage.resolve(hits[i].id)->Ok_0)))
    }
}

/// The value of what hydrating gives.
pub open spec fn hydrate_outcome(res: Result<Vec<(i64, Email<usize>)>, MailboxError>) -> Result<
    Seq<(i64, Message<usize>)>,
    MailboxError,
> {
    match res {
        Ok(found) => Ok(found@.map_values(|f: (i64, Email<usize>)| (f.0, f.1@))),
        Err(e) => Err(e),
    }
}

/// Resolves every hit, in order. One hit that does not resolve fails them all.
pub fn hydrate<T: MailStorageRepository<EmailId = usize>>(storage: &T, hits: &Vec<Hit>) -> (res: Result<
    Vec<(i64, Email<usize>)>,
    MailboxError,
>)
    ensures
        hydrate_outcome(res) == hydrated(*storage, hits@),
        res is Ok ==> hits_of(res->Ok_0@) == hits@,
{
    let mut found: Vec<(i64, Email<usize>)> = Vec::new();
    let mut at: usize = 0;
    while at < hits.len()
        invariant
            at <= hits@.len(),
            found@.len() == at,
            first_unresolved(*storage, hits@, 0) == first_unresolved(*storage, hits@, at as int),
            forall|i: int|
                0 <= i < at ==> storage.resolve(hits@[i].id) is Ok && (#[trigger] found@[i]).0
                    == hits@[i].score && found@[i].1@ == storage.resolve(hits@[i].id)->Ok_0
                    && found@[i].1.id == hits@[i].id,
        decreases hits@.len() - at,
    {
        match storage.get_email(&hits[at].id) {
            Ok(email) => {
                found.push((hits[at].score, email));
            },
            Err(e) => {
                return Err(e);
            },
        }
        at += 1;
    }
    proof {
        assert(found@.map_values(|f: (i64, Email<usize>)| (f.0, f.1@)) =~= Seq::new(
            hits@.len(),
            |i: int| (hits@[i].score, storage.resolve(hits@[i].id)->Ok_0),
        ));
        assert(hits_of(found@) =~= hits@);
    }
    Ok(found)
}

impl<T: MailStorageRepository<EmailId = usize>, E: Embedder, F: Fn(
    &E::Vector,
    &E::Vector,
) -> i64> MailboxService<T, E, F> {
    /// A service over an archive, an index and an embedder.
    pub fn new(
        storage_repository: T,
        search_repository: MemoryCosinus<E::Vector, F>,
        embedder: E,
    ) -> (service: Self)
        ensures
            service.storage_repository == storage_repository,
            service.search_repository == search_repository,
            service.embedder == embedder,
    {
        MailboxService { storage_repository, search_repository, embedder }
    }

    /// Indexes the messages of the archive, batch by batch.
    ///
    /// The store is asked once for the number of its messages; if it does not say, nothing
    /// is indexed. The messages that resolve are then taken in order, `INDEX_BUFFER_SIZE`
    /// at a time. Those of a batch that have a body are embedded in one call, and the batch
    /// goes into the index if the embedder gives one vector for each of them; if not, the
    /// batch is left out. The call always returns. Whatever the embedder does, entries only
    /// come in under the identifiers of messages that can be indexed, and every other entry
    /// stays as it was.
    pub fn index_emails(&mut self)
        ensures
            final(self).storage_repository == old(self).storage_repository,
            final(self).embedder == old(self).embedder,
            final(self).search_repository.measure() == old(self).search_repository.measure(),
            exists|counted: Result<usize, MailboxError>|
                call_ensures(T::count_emails, (&old(self).storage_repository,), counted)
                    && #[trigger] indexes(
                    old(self).storage_repository,
                    old(self).embedder,
                    walk_end(counted),
                    0,
                    old(self).search_repository@,
                    final(self).search_repository@,
                ),
            forall|id: usize| #[trigger]
                old(self).search_repository@.contains_key(id) ==> final(
                    self).search_repository@.contains_key(id),
            forall|id: usize| #[trigger]
                final(self).search_repository@.contains_key(id) ==> old(
                    self).search_repository@.contains_key(id) || indexable(
                    old(self).storage_repository,
                    id,
                ),
            forall|id: usize|
                !indexable(old(self).storage_repository, id) && #[trigger] old(
                    self).search_repository@.contains_key(id) ==> final(self).search_repository@[id]
                    == old(self).search_repository@[id],
    {
        let counted = self.storage_repository.count_emails();
        let upto: usize = match counted {
            Ok(count) => count,
            Err(_) => 0,
        };
        let mut next: usize = 0;
        loop
            invariant
                call_ensures(T::count_emails, (&self.storage_repository,), counted),
                upto == walk_end(counted),
                upto <= self.storage_repository.count(),
                next <= upto || next == 0,
                self.storage_repository == old(self).storage_repository,
                self.embedder == old(self).embedder,
                self.search_repository.measure() == old(self).search_repository.measure(),
                forall|fin: Map<usize, E::Vector>| #[trigger]
                    indexes(
                        self.storage_repository,
                        self.embedder,
                        upto as int,
                        next as int,
                        self.search_repository@,
                        fin,
                    ) ==> indexes(
                        self.storage_repository,
                        self.embedder,
                        upto as int,
                        0,
                        old(self).search_repository@,
                        fin,
                    ),
                forall|id: usize| #[trigger]
                    old(self).search_repository@.contains_key(id)
                        ==> self.search_repository@.contains_key(id),
                forall|id: usize| #[trigger]
                    self.search_repository@.contains_key(id) ==> old(
                        self).search_repository@.contains_key(id) || indexable(
                        old(self).storage_repository,
                        id,
                    ),
                forall|id: usize|
                    !indexable(old(self).storage_repository, id) && #[trigger] old(
                        self).search_repository@.contains_key(id) ==> self.search_repository@[id] == old(
                        self).search_repository@[id],
            ensures
                indexes(
                    self.storage_repository,
                    self.embedder,
                    walk_end(counted),
                    0,
                    old(self).search_repository@,
                    self.search_repository@,
                ),
            decreases upto - next,
        {
            let ghost start = next;
            let ghost before = self.search_repository@;
            let (buf, after) = take_batch(&self.storage_repository, next, INDEX_BUFFER_SIZE, upto);
            let ghost batch = messages(buf@);
            if buf.len() == 0 {
                assert(indexes(
                    self.storage_repository,
                    self.embedder,
                    upto as int,
                    start as int,
                    before,
                    before,
                ));
                assert(indexes(
                    self.storage_repository,
                    self.embedder,
                    walk_end(counted),
                    0,
                    old(self).search_repository@,
                    self.search_repository@,
                ));
                break ;
            }
            next = after;
            proof {
                assert forall|i: int| 0 <= i < batch.len() implies (#[trigger] batch[i]).id
                    < self.storage_repository.count() && self.storage_repository.resolve(
                    batch[i].id,
                ) == Ok::<Message<usize>, MailboxError>(batch[i]) by {
                    assert(batch[i] == buf@[i]@);
                }
                lemma_with_body_indexable(self.storage_repository, batch);
            }
            let (ids, bodies) = emails_to_ids_and_bodies_if_body_exists(buf);
            let mut bodies_str: Vec<&str> = Vec::new();
            let mut at: usize = 0;
            while at < bodies.len()
                invariant
                    at <= bodies@.len(),
                    bodies_str@.len() == at,
                    forall|j: int| 0 <= j < at ==> (#[trigger] bodies_str@[j])@ == bodies@[j]@,
                decreases bodies@.len() - at,
            {
                bodies_str.push(bodies[at].as_str());
                at += 1;
            }
            let text = bodies_str.as_slice();
            let embedded = self.embedder.embed(text);
            let ghost answer = embedded;
            proof {
                assert(texts(text@) =~= bodies_of(with_body(batch)));
                assert(ids@ =~= ids_of(with_body(batch)));
                assert forall|id: usize| ids@.contains(id) implies indexable(
                    old(self).storage_repository,
                    id,
                ) by {
                    let k = choose|k: int| 0 <= k < ids@.len() && ids@[k] == id;
                    assert(paired(ids@, bodies@)[k].0 == id);
                }
                if embedded is Ok {
                    lemma_with_batch_frame(before, ids@, embedded->Ok_0@);
                }
            }
            index_batch(&mut self.search_repository, ids, embedded);
            proof {
                assert forall|fin: Map<usize, E::Vector>| #[trigger]
                    indexes(
                        self.storage_repository,
                        self.embedder,
                        upto as int,
                        next as int,
                        self.search_repository@,
                        fin,
                    ) implies indexes(
                    self.storage_repository,
                    self.embedder,
                    upto as int,
                    0,
                    old(self).search_repository@,
                    fin,
                ) by {
                    assert(call_ensures(E::embed, (&self.embedder, text), answer));
                    assert(self.search_repository@ == after_batch(
                        before,
                        ids_of(with_body(batch)),
                        answer,
                    ));
                    assert(indexes(
                        self.storage_repository,
                        self.embedder,
                        upto as int,
                        start as int,
                        before,
                        fin,
                    ));
                }
            }
        }
    }

    /// `res` answers the request whose vector is `request`: for some scores that the
    /// similarity may give the entries of the index against the request, and for the
    /// ranking `hits` of the best `LIMIT_SEARCH_RESULTS` under those scores, `res` is what
    /// hydrating `hits` gives.
    pub open spec fn answers(
        &self,
        request: &E::Vector,
        res: Result<Vec<(i64, Email<usize>)>, SearchFailure>,
    ) -> bool {
        exists|scores: Map<usize, i64>, hits: Seq<Hit>|
            {
                &&& scored_by(
                    self.search_repository.measure(),
                    request,
                    self.search_repository@,
                    scores,
                )
                &&& #[trigger] is_ranking(hits, scores, LIMIT_SEARCH_RESULTS as nat)
                &&& hits.len() == if self.search_repository@.dom().len() < LIMIT_SEARCH_RESULTS {
                    self.search_repository@.dom().len()
                } else {
                    LIMIT_SEARCH_RESULTS as nat
                }
                &&& search_outcome(res) == found_or_failed(hydrated(self.storage_repository, hits))
                &&& res is Ok ==> hits_of(res->Ok_0@) == hits
            }
    }

    /// Answers a request with what the embedder made of it: the best hits of the index for
    /// the request's vector, each with its message. A request that could not be embedded,
    /// or one hit that does not resolve, fails the search.
    pub fn search_embedded(&self, embedded_request: Result<E::Vector, EmbeddingError>) -> (res: Result<
        Vec<(i64, Email<usize>)>,
        SearchFailure,
    >)
        ensures
            match embedded_request {
                Ok(request) => self.answers(&request, res),
                Err(e) => res == Err::<Vec<(i64, Email<usize>)>, SearchFailure>(
                    SearchFailure::Embedding(e),
                ),
            },
    {
        let request = match embedded_request {
            Ok(request) => request,
            Err(e) => {
                return Err(SearchFailure::Embedding(e));
            },
        };
        let hits = match self.search_repository.search(&request, LIMIT_SEARCH_RESULTS) {
            Ok(hits) => hits,
            Err(e) => {
                return Err(SearchFailure::Index(e));
            },
        };
        let hydrated = hydrate(&self.storage_repository, &hits);
        let res = match hydrated {
            Ok(found) => Ok(found),
            Err(e) => Err(SearchFailure::Storage(e)),
        };
        proof {
            let scores = choose|scores: Map<usize, i64>|
                scored_by(self.search_repository.measure(), &request, self.search_repository@, scores)
                    && #[trigger] is_ranking(hits@, scores, LIMIT_SEARCH_RESULTS as nat);
            assert(is_ranking(hits@, scores, LIMIT_SEARCH_RESULTS as nat));
        }
        res
    }

    /// Searches the archive for the messages that match a request best, at most
    /// `LIMIT_SEARCH_RESULTS` of them, the best first. All or nothing: a request that
    /// cannot be embedded, or one hit that does not resolve, fails the search.
    ///
    /// The embedder is asked for the vector of the request. If it fails, so does the search,
    /// with the embedder's error; if not, the search answers the request for the vector
    /// that the embedder gave. What comes back is then never longer than the limit nor than
    /// the index, its scores never go up, and each message is what its identifier resolves
    /// to.
    pub fn search_email(&self, search_request: &str) -> (res: Result<
        Vec<(i64, Email<usize>)>,
        SearchFailure,
    >)
        ensures
            exists|embedded: Result<E::Vector, EmbeddingError>| #[trigger]
                call_ensures(E::embed_line, (&self.embedder, search_request), embedded) && match embedded {
                    Ok(request) => self.answers(&request, res),
                    Err(e) => res == Err::<Vec<(i64, Email<usize>)>, SearchFailure>(
                        SearchFailure::Embedding(e),
                    ),
                },
            res is Ok ==> res->Ok_0@.len() <= LIMIT_SEARCH_RESULTS,
            res is Ok ==> res->Ok_0@.len() <= self.search_repository@.dom().len(),
            res is Ok ==> forall|i: int|
                0 <= i < res->Ok_0@.len() ==> self.search_repository@.contains_key(
                    (#[trigger] res->Ok_0@[i]).1.id,
                ) && self.storage_repository.resolve(res->Ok_0@[i].1.id) == Ok::<
                    Message<usize>,
                    MailboxError,
                >(res->Ok_0@[i].1@),
            res is Ok ==> forall|i: int, j: int|
                0 <= i <= j < res->Ok_0@.len() ==> (#[trigger] res->Ok_0@[i]).0 >= (
                #[trigger] res->Ok_0@[j]).0,
    {
        let embedded_request = self.embedder.embed_line(search_request);
        let ghost embedded = embedded_request;
        let res = self.search_embedded(embedded_request);
        proof {
            assert(call_ensures(E::embed_line, (&self.embedder, search_request), embedded));
            if embedded is Ok && res is Ok {
                self.lemma_answer(&embedded->Ok_0, res);
            }
        }
        res
    }

    /// What an answer that succeeded looks like.
    pub proof fn lemma_answer(
        &self,
        request: &E::Vector,
        res: Result<Vec<(i64, Email<usize>)>, SearchFailure>,
    )
        requires
            self.answers(request, res),
            res is Ok,
        ensures
            res->Ok_0@.len() <= LIMIT_SEARCH_RESULTS,
            res->Ok_0@.len() <= self.search_repository@.dom().len(),
            forall|i: int|
                0 <= i < res->Ok_0@.len() ==> self.search_repository@.contains_key(
                    (#[trigger] res->Ok_0@[i]).1.id,
                ) && self.storage_repository.resolve(res->Ok_0@[i].1.id) == Ok::<
                    Message<usize>,
                    MailboxError,
                >(res->Ok_0@[i].1@),
            forall|i: int, j: int|
                0 <= i <= j < res->Ok_0@.len() ==> (#[trigger] res->Ok_0@[i]).0 >= (
                #[trigger] res->Ok_0@[j]).0,
    {
        let found = res->Ok_0@;
        let (scores, hits) = choose|scores: Map<usize, i64>, hits: Seq<Hit>|
            {
                &&& scored_by(
                    self.search_repository.measure(),
                    request,
                    self.search_repository@,
                    scores,
                )
                &&& #[trigger] is_ranking(hits, scores, LIMIT_SEARCH_RESULTS as nat)
                &&& hits.len() == if self.search_repository@.dom().len() < LIMIT_SEARCH_RESULTS {
                    self.search_repository@.dom().len()
                } else {
                    LIMIT_SEARCH_RESULTS as nat
                }
                &&& search_outcome(res) == found_or_failed(hydrated(self.storage_repository, hits))
                &&& res is Ok ==> hits_of(res->Ok_0@) == hits
            };
        assert(hits_of(found) == hits);
        assert(found.len() == hits.len());
        let views = found.map_values(|f: (i64, Email<usize>)| (f.0, f.1@));
        assert(hydrated(self.storage_repository, hits) == Ok::<
            Seq<(i64, Message<usize>)>,
            MailboxError,
        >(views));
        lemma_all_resolved(self.storage_repository, hits, 0);
        assert forall|i: int| 0 <= i < found.len() implies self.search_repository@.contains_key(
            (#[trigger] found[i]).1.id,
        ) && self.storage_repository.resolve(found[i].1.id) == Ok::<Message<usize>, MailboxError>(
            found[i].1@,
        ) by {
            assert(hits[i].id == found[i].1.id);
            assert(scores.contains_key(hits[i].id));
            assert(scores.dom().contains(hits[i].id));
            assert(views[i] == (hits[i].score, self.storage_repository.resolve(hits[i].id)->Ok_0));
        }
        assert forall|i: int, j: int| 0 <= i <= j < found.len() implies (#[trigger] found[i]).0 >= (
        #[trigger] found[j]).0 by {
            assert(hits[i].score == found[i].0);
            assert(hits[j].score == found[j].0);
        }
    }
}

/// The value of what a search gives.
pub open spec fn search_outcome(res: Result<Vec<(i64, Email<usize>)>, SearchFailure>) -> Result<
    Seq<(i64, Message<usize>)>,
    SearchFailure,
> {
    match res {
        Ok(found) => Ok(found@.map_values(|f: (i64, Email<usize>)| (f.0, f.1@))),
        Err(e) => Err(e),
    }
}

/// What a search makes of hydrated hits: a hit that did not resolve is a storage failure.
pub open spec fn found_or_failed(
    hydrated: Result<Seq<(i64, Message<usize>)>, MailboxError>,
) -> Result<Seq<(i64, Message<usize>)>, SearchFailure> {
    match hydrated {
        Ok(found) => Ok(found),
        Err(e) => Err(SearchFailure::Storage(e)),
    }
}

/// Where no hit fails to resolve, every hit resolves.
proof fn lemma_all_resolved<T: MailStorageRepository<EmailId = usize>>(
    storage: T,
    hits: Seq<Hit>,
    from: int,
)
    requires
        0 <= from <= hits.len(),
        first_unresolved(storage, hits, from) >= hits.len(),
    ensures
        forall|i: int| from <= i < hits.len() ==> storage.resolve((#[trigger] hits[i]).id) is Ok,
    decreases hits.len() - from,
{
    if from < hits.len() {
        lemma_all_resolved(storage, hits, from + 1);
    }
}

/// Every message of a batch that resolves under its own identifier and has a body can be
/// indexed.
proof fn lemma_with_body_indexable<T: MailStorageRepository<EmailId = usize>>(
    storage: T,
    batch: Seq<Message<usize>>,
)
    requires
        forall|i: int|
            0 <= i < batch.len() ==> (#[trigger] batch[i]).id < storage.count() && storage.resolve(
                batch[i].id,
            ) == Ok::<Message<usize>, MailboxError>(batch[i]),
    ensures
        forall|k: int|
            0 <= k < with_body(batch).len() ==> indexable(storage, (#[trigger] with_body(batch)[k]).0),
    decreases batch.len(),
{
    if batch.len() > 0 {
        let earlier = batch.drop_last();
        assert forall|i: int| 0 <= i < earlier.len() implies (#[trigger] earlier[i]).id
            < storage.count() && storage.resolve(earlier[i].id) == Ok::<
            Message<usize>,
            MailboxError,
        >(earlier[i]) by {
            assert(earlier[i] == batch[i]);
        }
        lemma_with_body_indexable(storage, earlier);
        let last = batch[batch.len() - 1];
        assert(batch.last() == last);
        assert forall|k: int| 0 <= k < with_body(batch).len() implies indexable(
            storage,
            (#[trigger] with_body(batch)[k]).0,
        ) by {
            if k < with_body(earlier).len() {
                assert(with_body(batch)[k] == with_body(earlier)[k]);
            } else {
                assert(with_body(batch)[k].0 == last.id);
            }
        }
    }
}

} // verus!
