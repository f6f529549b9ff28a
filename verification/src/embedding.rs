//! The client side of the embedding service: what is sent for a text, and
//! what an answer yields.
//!
//! The exchange itself is the caller's: the client writes the body of the
//! request and reads the reply that came back.

use crate::error::EmbedError;
use crate::json::{json_string, quote};
use vstd::prelude::*;

verus! {

/// What came back for one request.
#[derive(Debug)]
pub enum Reply {
    /// No answer arrived.
    Unreachable,
    /// The service answered. `data` holds the vector of each entry of the
    /// body's `data` list, in order, or nothing where the body could not be
    /// read as an embedding response.
    Answered { status: u16, data: Option<Vec<Vec<u32>>> },
}

/// A status that means success.
pub open spec fn is_success(status: u16) -> bool {
    200 <= status < 300
}

/// The body asking for the embedding of `text` by `model`.
pub open spec fn request_text(text: Seq<char>, model: Seq<char>) -> Seq<char> {
    "{\"input\":"@ + json_string(text) + ",\"model\":"@ + json_string(model) + "}"@
}

/// What a reply yields for a client that expects `dimension` components:
/// the vector of the first entry, or the reason why there is none.
pub open spec fn reading(reply: Reply, dimension: usize) -> Result<Seq<u32>, EmbedError> {
    match reply {
        Reply::Unreachable => Err(EmbedError::Transport),
        Reply::Answered { status, data } => {
            if !is_success(status) {
                Err(EmbedError::ServiceError { status })
            } else if data.is_none() || data.unwrap().len() == 0 {
                Err(EmbedError::Malformed)
            } else if data.unwrap()[0].len() != dimension {
                Err(EmbedError::DimensionMismatch)
            } else {
                Ok(data.unwrap()[0]@)
            }
        },
    }
}

/// The settings under which embeddings are asked for.
pub struct EmbeddingClient {
    model: String,
    dimension: usize,
}

impl EmbeddingClient {
    /// The model that the client asks for.
    pub closed spec fn spec_model(&self) -> Seq<char> {
        self.model@
    }

    /// The number of components that the client expects.
    pub closed spec fn spec_dimension(&self) -> usize {
        self.dimension
    }

    /// A client for `model` that expects vectors of `dimension` components.
    pub fn new(model: &str, dimension: usize) -> (client: Self)
        ensures
            client.spec_model() == model@,
            client.spec_dimension() == dimension,
    {
        EmbeddingClient { model: model.to_owned(), dimension }
    }

    pub fn model(&self) -> (model: &str)
        ensures
            model@ == self.spec_model(),
    {
        self.model.as_str()
    }

    #[verifier::when_used_as_spec(spec_dimension)]
    pub fn dimension(&self) -> (dimension: usize)
        ensures
            dimension == self.spec_dimension(),
    {
        self.dimension
    }

    /// The body of the request for the embedding of `text`.
    pub fn request_body(&self, text: &str) -> (body: String)
        ensures
            body@ == request_text(text@, self.spec_model()),
    {
        let mut body = String::from_str("{\"input\":");
        body.append(quote(text).as_str());
        body.append(",\"model\":");
        body.append(quote(self.model.as_str()).as_str());
        body.append("}");
        body
    }

    /// The embedding that a reply carries, or why it carries none.
    pub fn read_reply(&self, reply: Reply) -> (embedding: Result<Vec<u32>, EmbedError>)
        ensures
            match (embedding, reading(reply, self.spec_dimension())) {
                (Ok(vector), Ok(read)) => vector@ == read,
                (Err(error), Err(reason)) => error == reason,
                _ => false,
            },
    {
        match reply {
            Reply::Unreachable => Err(EmbedError::Transport),
            Reply::Answered { status, data } => {
                if status < 200 || status >= 300 {
                    return Err(EmbedError::ServiceError { status });
                }
                match data {
                    None => Err(EmbedError::Malformed),
                    Some(mut vectors) => {
                        if vectors.len() == 0 {
                            Err(EmbedError::Malformed)
                        } else if vectors[0].len() != self.dimension {
                            Err(EmbedError::DimensionMismatch)
                        } else {
                            Ok(vectors.swap_remove(0))
                        }
                    },
                }
            },
        }
    }
}

} // verus!
