use vstd::prelude::*;

verus! {

/// Failures of the text-generation backend.
#[derive(Debug)]
pub enum LlmError {
    /// The backend call failed; the backend's message.
    Generation(String),
    /// The answer was not the JSON object asked for; the decoder's message.
    JsonParse(String),
}

/// Failures while embedding text or talking to the vector index.
#[derive(Debug)]
pub enum EmbeddingError {
    /// The vector index client could not be built; the client's message.
    ClientBuild(String),
    /// The embedding backend call failed.
    Llm(LlmError),
    /// An operation on the vector index failed; the backend's message.
    VectorDatabase(String),
    /// The backend answered without any embedding.
    EmbeddingNotFound,
}

/// Failures surfaced by the service front end.
#[derive(Debug)]
pub enum AppError {
    Llm(Box<LlmError>),
    Embedding(Box<EmbeddingError>),
    /// The listening socket could not be opened; the system's message.
    ServerBind(String),
}

/// Status code with which the vector index refuses to create a collection that exists.
pub const COLLECTION_EXISTS_CODE: i32 = 6;

/// Whether a refused collection creation only means that the collection is already there,
/// which startup accepts; any other refusal is fatal.
pub fn is_already_exists(code: i32) -> (r: bool)
    ensures
        r == (code == COLLECTION_EXISTS_CODE),
{
    code == COLLECTION_EXISTS_CODE
}

impl AppError {
    /// The message shown to clients: it names the failing component only, never backend
    /// details.
    pub fn public_message(&self) -> (r: &'static str)
        ensures
            self is Llm ==> r@ == "LLM operation failed"@,
            self is Embedding ==> r@ == "Database or embedding operation failed"@,
            self is ServerBind ==> r@ == "Server failed to start"@,
    {
        match self {
            AppError::Llm(_) => "LLM operation failed",
            AppError::Embedding(_) => "Database or embedding operation failed",
            AppError::ServerBind(_) => "Server failed to start",
        }
    }
}

impl From<LlmError> for AppError {
    fn from(err: LlmError) -> (r: AppError) {
        AppError::Llm(Box::new(err))
    }
}

impl vstd::std_specs::convert::FromSpecImpl<LlmError> for AppError {
    open spec fn obeys_from_spec() -> bool {
        true
    }

    open spec fn from_spec(err: LlmError) -> AppError {
        AppError::Llm(Box::new(err))
    }
}

impl From<EmbeddingError> for AppError {
    fn from(err: EmbeddingError) -> (r: AppError) {
        AppError::Embedding(Box::new(err))
    }
}

impl vstd::std_specs::convert::FromSpecImpl<EmbeddingError> for AppError {
    open spec fn obeys_from_spec() -> bool {
        true
    }

    open spec fn from_spec(err: EmbeddingError) -> AppError {
        AppError::Embedding(Box::new(err))
    }
}

} // verus!
