//! Embedding by a local HTTP daemon: what is asked and what is made of the
//! reply.
use crate::single::Single;
use crate::text::{self, chars_of, decimal_string, string_copy, string_of};
use vstd::prelude::*;

verus! {

/// How long a request may take, in seconds.
pub const DEFAULT_TIMEOUT_SECS: u64 = 60;

/// How much of an error body is reported.
pub const BODY_PREVIEW: usize = 500;

/// Embedder backed by a daemon.
#[derive(Debug)]
pub struct OllamaEmbedder {
    pub endpoint: String,
    pub model: String,
    pub dim: usize,
    pub tag: String,
}

/// Body of a request.
#[derive(Debug)]
pub struct EmbedRequest {
    pub model: String,
    pub prompt: String,
}

/// What came back for a request.
#[derive(Debug)]
pub enum EmbedReply {
    /// No connection: why.
    Unreachable(String),
    /// A status other than success, with the body.
    Refused(String, String),
    /// A body that could not be read: why.
    Malformed(String),
    /// A vector.
    Vector(Vec<Single>),
}

/// The beginning of an error body.
pub open spec fn preview(body: Seq<char>) -> Seq<char> {
    if body.len() <= BODY_PREVIEW {
        body
    } else {
        body.take(BODY_PREVIEW as int)
    }
}

impl OllamaEmbedder {
    /// The error that a reply is, if it is one.
    pub open spec fn reply_error(self, reply: EmbedReply) -> Option<Seq<char>> {
        match reply {
            EmbedReply::Unreachable(e) => Some("POST "@ + self.endpoint@ + ": "@ + e@),
            EmbedReply::Refused(status, body) => Some(
                "ollama returned HTTP "@ + status@ + ": "@ + preview(body@),
            ),
            EmbedReply::Malformed(e) => Some("parse ollama embed response: "@ + e@),
            EmbedReply::Vector(v) => if v@.len() != self.dim {
                Some(
                    "ollama returned "@ + text::decimal(v@.len()) + " dims, expected "@
                        + text::decimal(self.dim as nat) + " (model "@ + self.model@ + ")"@,
                )
            } else {
                None
            },
        }
    }

    /// An embedder for a model of known dimension at the default endpoint. Its
    /// tag names the model.
    pub fn new(model: &str, dim: usize) -> (r: Self)
        ensures
            r.endpoint@ == "http://127.0.0.1:11434/api/embeddings"@,
            r.model@ == model@,
            r.dim == dim,
            r.tag@ == "ollama:"@ + model@,
    {
        let mut tag = string_copy("ollama:");
        tag.append(model);
        OllamaEmbedder {
            endpoint: string_copy("http://127.0.0.1:11434/api/embeddings"),
            model: string_copy(model),
            dim,
            tag,
        }
    }

    /// The embedder for the model `nomic-embed-text`.
    pub fn nomic_embed_text() -> (r: Self)
        ensures
            r.endpoint@ == "http://127.0.0.1:11434/api/embeddings"@,
            r.model@ == "nomic-embed-text"@,
            r.dim == 768,
            r.tag@ == "ollama:"@ + "nomic-embed-text"@,
    {
        Self::new("nomic-embed-text", 768)
    }

    /// The same embedder at another endpoint.
    pub fn with_endpoint(self, endpoint: &str) -> (r: Self)
        ensures
            r.endpoint@ == endpoint@,
            r.model == self.model,
            r.dim == self.dim,
            r.tag == self.tag,
    {
        OllamaEmbedder {
            endpoint: string_copy(endpoint),
            model: self.model,
            dim: self.dim,
            tag: self.tag,
        }
    }

    /// Number of elements of the vectors.
    pub fn dim(&self) -> (n: usize)
        ensures
            n == self.dim,
    {
        self.dim
    }

    /// Identity of the embedder.
    pub fn tag(&self) -> (s: &str)
        ensures
            s@ == self.tag@,
    {
        self.tag.as_str()
    }

    /// The request for a text. An empty text cannot be embedded.
    pub fn request(&self, content: &str) -> (r: Result<EmbedRequest, String>)
        ensures
            match r {
                Ok(q) => content@.len() > 0 && q.model@ == self.model@ && q.prompt@ == content@,
                Err(e) => content@.len() == 0 && e@ == "cannot embed empty text"@,
            },
    {
        if content.is_empty() {
            return Err(string_copy("cannot embed empty text"));
        }
        Ok(EmbedRequest { model: string_copy(self.model.as_str()), prompt: string_copy(content) })
    }

    /// The vector that a reply holds, if it has the right dimension; else the
    /// error in words.
    pub fn receive(&self, reply: EmbedReply) -> (r: Result<Vec<Single>, String>)
        ensures
            match r {
                Ok(v) => self.reply_error(reply) is None && reply == EmbedReply::Vector(v),
                Err(e) => self.reply_error(reply) == Some(e@),
            },
    {
        match reply {
            EmbedReply::Unreachable(e) => {
                let mut m = string_copy("POST ");
                m.append(self.endpoint.as_str());
                m.append(": ");
                m.append(e.as_str());
                Err(m)
            },
            EmbedReply::Refused(status, body) => {
                let mut m = string_copy("ollama returned HTTP ");
                m.append(status.as_str());
                m.append(": ");
                let chars = chars_of(body.as_str());
                if chars.len() <= BODY_PREVIEW {
                    m.append(body.as_str());
                } else {
                    let head = &chars[0..BODY_PREVIEW];
                    assert(head@ == body@.take(BODY_PREVIEW as int));
                    let start = string_of(head);
                    m.append(start.as_str());
                }
                Err(m)
            },
            EmbedReply::Malformed(e) => {
                let mut m = string_copy("parse ollama embed response: ");
                m.append(e.as_str());
                Err(m)
            },
            EmbedReply::Vector(v) => {
                if v.len() != self.dim {
                    let mut m = string_copy("ollama returned ");
                    m.append(decimal_string(v.len() as u64).as_str());
                    m.append(" dims, expected ");
                    m.append(decimal_string(self.dim as u64).as_str());
                    m.append(" (model ");
                    m.append(self.model.as_str());
                    m.append(")");
                    return Err(m);
                }
                Ok(v)
            },
        }
    }
}

/// A text is asked for with the model's name unless it is empty, and a reply is taken
/// exactly if it is a vector of the right dimension; it is handed on as it came.
pub proof fn lemma_embedding_is_asked_and_taken(
    e: &OllamaEmbedder,
    content: &str,
    q: Result<EmbedRequest, String>,
    reply: EmbedReply,
    r: Result<Vec<Single>, String>,
)
    requires
        call_ensures(OllamaEmbedder::request, (e, content), q),
        call_ensures(OllamaEmbedder::receive, (e, reply), r),
    ensures
        q is Ok <==> content@.len() > 0,
        q matches Ok(body) ==> body.model@ == e.model@ && body.prompt@ == content@,
        r is Ok <==> (reply matches EmbedReply::Vector(v) && v@.len() == e.dim),
        r matches Ok(v) ==> reply == EmbedReply::Vector(v),
{
}

/// Of the body of an error as much is told as there is, but at most 500 characters.
pub proof fn lemma_error_body_is_cut(body: Seq<char>)
    ensures
        body.len() <= 500 ==> preview(body) == body,
        body.len() > 500 ==> preview(body).len() == 500 && preview(body).is_prefix_of(body),
{
    if body.len() > 500 {
        assert(body.subrange(0, 500) == body.take(500));
    }
}

/// An embedder asks the local service, has the model's name in its tag, and can be
/// pointed elsewhere without any other change.
pub proof fn lemma_embedder_is_made(
    model: &str,
    dim: usize,
    e: OllamaEmbedder,
    nomic: OllamaEmbedder,
    endpoint: &str,
    moved: OllamaEmbedder,
)
    requires
        call_ensures(OllamaEmbedder::new, (model, dim), e),
        call_ensures(OllamaEmbedder::nomic_embed_text, (), nomic),
        call_ensures(OllamaEmbedder::with_endpoint, (e, endpoint), moved),
    ensures
        e.endpoint@ == "http://127.0.0.1:11434/api/embeddings"@,
        e.model@ == model@ && e.dim == dim && e.tag@ == "ollama:"@ + model@,
        nomic.endpoint@ == e.endpoint@,
        nomic.model@ == "nomic-embed-text"@ && nomic.dim == 768,
        nomic.tag@ == "ollama:"@ + nomic.model@,
        moved.endpoint@ == endpoint@,
        moved.model == e.model && moved.dim == e.dim && moved.tag == e.tag,
{
}

/// What went wrong is told: the endpoint that was not reached, the status and the
/// beginning of the body, what could not be parsed, or the wrong dimension.
pub proof fn lemma_reply_errors_are_told(
    e: &OllamaEmbedder,
    reply: EmbedReply,
    r: Result<Vec<Single>, String>,
)
    requires
        call_ensures(OllamaEmbedder::receive, (e, reply), r),
    ensures
        reply matches EmbedReply::Unreachable(m) ==> (r matches Err(w) && w@ == "POST "@
            + e.endpoint@ + ": "@ + m@),
        reply matches EmbedReply::Refused(status, body) ==> (r matches Err(w) && w@
            == "ollama returned HTTP "@ + status@ + ": "@ + preview(body@)),
        reply matches EmbedReply::Malformed(m) ==> (r matches Err(w) && w@
            == "parse ollama embed response: "@ + m@),
        reply matches EmbedReply::Vector(v) ==> (r matches Err(w) ==> w@ == "ollama returned "@
            + text::decimal(v@.len()) + " dims, expected "@ + text::decimal(e.dim as nat)
            + " (model "@ + e.model@ + ")"@),
{
}

} // verus!
