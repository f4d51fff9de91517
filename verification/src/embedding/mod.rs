use vstd::prelude::*;

pub mod local;

verus! {

/// What can go wrong while texts are turned into vectors.
#[derive(Debug, Clone, Copy, PartialEq, Eq, Structural)]
pub enum EmbeddingError {
    ModelNotFound,
    Error,
    EncodeError,
    MissingResultError,
}

impl EmbeddingError {
    /// The variant's name, as text.
    pub open spec fn name(self) -> Seq<char> {
        match self {
            EmbeddingError::ModelNotFound => "ModelNotFound"@,
            EmbeddingError::Error => "Error"@,
            EmbeddingError::EncodeError => "EncodeError"@,
            EmbeddingError::MissingResultError => "MissingResultError"@,
        }
    }

    /// Renders the error as the name of its variant.
    pub fn to_string(&self) -> (text: String)
        ensures
            text@ == self.name(),
    {
        match self {
            EmbeddingError::ModelNotFound => "ModelNotFound".to_owned(),
            EmbeddingError::Error => "Error".to_owned(),
            EmbeddingError::EncodeError => "EncodeError".to_owned(),
            EmbeddingError::MissingResultError => "MissingResultError".to_owned(),
        }
    }
}

/// The capability to turn texts into vectors. Nothing is promised of what an embedder
/// returns: whoever calls one checks what comes back.
pub trait Embedder {
    type Vector;

    /// One vector for each text, in the order of the texts.
    fn embed(&self, text: &[&str]) -> Result<Vec<Self::Vector>, EmbeddingError>;

    /// The vector of one text.
    fn embed_line(&self, text: &str) -> Result<Self::Vector, EmbeddingError>;
}

/// The vector of a single text, out of what embedding a batch of that one text gave: the
/// last vector of the batch. A failed batch is an encode error, an empty one a missing
/// result.
pub fn single_vector<V>(embedded: Result<Vec<V>, EmbeddingError>) -> (res: Result<
    V,
    EmbeddingError,
>)
    ensures
        match embedded {
            Ok(vectors) => if vectors@.len() > 0 {
                res == Ok::<V, EmbeddingError>(vectors@.last())
            } else {
                res == Err::<V, EmbeddingError>(EmbeddingError::MissingResultError)
            },
            Err(_) => res == Err::<V, EmbeddingError>(EmbeddingError::EncodeError),
        },
{
    match embedded {
        Ok(mut vectors) => match vectors.pop() {
            Some(vector) => Ok(vector),
            None => Err(EmbeddingError::MissingResultError),
        },
        Err(_) => Err(EmbeddingError::EncodeError),
    }
}

} // verus!
