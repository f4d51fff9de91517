use vstd::prelude::*;

pub mod memory_cosinus;

verus! {

/// What can go wrong while indexing or searching.
#[derive(Debug, Clone, Copy, PartialEq, Eq, Structural)]
pub enum SearchError {
    ModelNotFound,
    Error,
}

impl SearchError {
    /// The variant's name, as text.
    pub open spec fn name(self) -> Seq<char> {
        match self {
            SearchError::ModelNotFound => "ModelNotFound"@,
            SearchError::Error => "Error"@,
        }
    }

    /// Renders the error as the name of its variant.
    pub fn to_string(&self) -> (text: String)
        ensures
            text@ == self.name(),
    {
        match self {
            SearchError::ModelNotFound => "ModelNotFound".to_owned(),
            SearchError::Error => "Error".to_owned(),
        }
    }
}

/// One hit of a search: a message's identifier and how well it matches. A higher score is a
/// better match.
#[derive(Debug)]
pub struct SearchResult<T> {
    pub id: T,
    pub score: i64,
}

/// An index from identifiers to vectors that can rank its entries against a vector.
pub trait MailSearchRepository {
    type EmailId;

    type Vector;

    /// The vectors held, by identifier.
    spec fn entries(&self) -> Map<Self::EmailId, Self::Vector>;

    /// Stores `email_vector` under `id`, in place of what was stored there.
    fn index(&mut self, id: Self::EmailId, email_vector: Self::Vector) -> (res: Result<
        (),
        SearchError,
    >)
        ensures
            res is Ok ==> final(self).entries() == old(self).entries().insert(id, email_vector),
            res is Err ==> final(self).entries() == old(self).entries(),
    ;

    /// The best matches for `ask`, the best first, at most `nb_results` of them.
    fn search(&self, ask: &Self::Vector, nb_results: usize) -> (res: Result<
        Vec<SearchResult<Self::EmailId>>,
        SearchError,
    >)
        ensures
            res is Ok ==> res->Ok_0@.len() <= nb_results,
            res is Ok ==> forall|i: int|
                0 <= i < res->Ok_0@.len() ==> self.entries().contains_key(
                    (#[trigger] res->Ok_0@[i]).id,
                ),
            res is Ok ==> forall|i: int, j: int|
                0 <= i <= j < res->Ok_0@.len() ==> (#[trigger] res->Ok_0@[i]).score >= (
                #[trigger] res->Ok_0@[j]).score,
    ;
}

} // verus!
