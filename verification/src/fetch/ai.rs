//! The chat completion service: the request the client sends, the answer it
//! reads back, and the rules around them.

use vstd::prelude::*;
use vstd::utf8::{encode_utf8, decode_utf8, is_char_boundary};
use vstd::string::StringSliceAdditionalSpecFns;
use crate::text::push_char;

verus! {

/// Where chat completions are requested.
pub const AI_CHAT_URL: &'static str = "https://ai.hackclub.com/proxy/v1/chat/completions";

/// Where the available models are listed.
pub const AI_MODELS_URL: &'static str = "https://ai.hackclub.com/proxy/v1/models";

/// The model used when none was chosen.
pub const DEFAULT_MODEL: &'static str = "moonshotai/kimi-k2.5";

/// One message of a chat.
pub struct Message {
    pub role: String,
    pub content: String,
}

/// A chat completion request.
pub struct ChatRequest {
    pub model: String,
    pub messages: Vec<Message>,
    pub stream: bool,
}

/// The message of one choice in a (non-streamed) answer.
pub struct ResponseMessage {
    pub content: String,
}

/// One choice of a (non-streamed) answer.
pub struct Choice {
    pub message: ResponseMessage,
}

/// A (non-streamed) chat completion answer.
pub struct ChatResponse {
    pub choices: Vec<Choice>,
}

/// A model offered by the chat service.
pub struct ModelsData {
    pub id: String,
    pub name: Option<String>,
    pub description: Option<String>,
}

/// The list of models offered by the chat service.
pub struct ModelsResponse {
    pub data: Vec<ModelsData>,
}

/// Why a chat request could not be made.
pub enum AiError {
    /// No API key was given.
    MissingApiKey,
}

impl AiError {
    /// The text shown for the error.
    pub fn message(&self) -> (s: String)
        ensures
            s@ == "HACKCLUB_API_KEY must be set"@,
    {
        match self {
            AiError::MissingApiKey => "HACKCLUB_API_KEY must be set".to_owned(),
        }
    }
}

impl ChatRequest {
    /// The request that asks `model` to answer the single user message
    /// `prompt`, streamed or not.
    pub fn user_prompt(model: String, prompt: String, stream: bool) -> (r: ChatRequest)
        ensures
            r.model@ == model@,
            r.stream == stream,
            r.messages@.len() == 1,
            r.messages@[0].role@ == "user"@,
            r.messages@[0].content@ == prompt@,
    {
        let message = Message { role: "user".to_owned(), content: prompt };
        let mut messages: Vec<Message> = Vec::new();
        messages.push(message);
        ChatRequest { model, messages, stream }
    }
}

impl ChatResponse {
    /// The content of the first choice.
    pub fn first_content(&self) -> (s: String)
        requires
            self.choices@.len() > 0,
        ensures
            s@ == self.choices@[0].message.content@,
    {
        self.choices[0].message.content.clone()
    }
}

/// The API key, or the error to report when there is none.
pub fn require_api_key(api_key: Option<String>) -> (r: Result<String, AiError>)
    ensures
        match api_key {
            Some(k) => r matches Ok(s) && s@ == k@,
            None => r matches Err(AiError::MissingApiKey),
        },
{
    match api_key {
        Some(k) => Ok(k),
        None => Err(AiError::MissingApiKey),
    }
}

/// The value of the `Authorization` header for `api_key`.
pub fn bearer_header(api_key: &str) -> (s: String)
    ensures
        s@ == "Bearer "@ + api_key@,
{
    let mut s = "Bearer ".to_owned();
    s.append(api_key);
    s
}

/// The model to ask: `model`, or the default model when `model` is empty.
pub fn model_or_default(model: &str) -> (s: String)
    ensures
        s@ == (if model@.len() == 0 { DEFAULT_MODEL@ } else { model@ }),
{
    if model.is_empty() {
        DEFAULT_MODEL.to_owned()
    } else {
        model.to_owned()
    }
}

/// How many bytes of a model description are shown.
pub open spec fn description_limit() -> nat {
    100
}

/// A model description as listed: descriptions longer than 100 bytes are cut
/// to their first 100 bytes and followed by `...`.
pub open spec fn shortened(desc: Seq<char>) -> Seq<char> {
    let bytes = encode_utf8(desc);
    if bytes.len() > description_limit() {
        decode_utf8(bytes.take(description_limit() as int)) + seq!['.', '.', '.']
    } else {
        desc
    }
}

/// Shortens a model description for listing. Cutting inside a character is
/// not possible, so a description longer than 100 bytes must have a character
/// boundary at byte 100.
pub fn short_description(desc: &str) -> (s: String)
    requires
        encode_utf8(desc@).len() > description_limit() ==> is_char_boundary(
            encode_utf8(desc@),
            description_limit() as int,
        ),
    ensures
        s@ == shortened(desc@),
{
    broadcast use vstd::utf8::group_utf8_lib;
    if desc.as_bytes().len() > 100 {
        let (head, _tail) = desc.split_at(100);
        assert(head.spec_bytes() == encode_utf8(head@));
        assert(decode_utf8(encode_utf8(head@)) == head@);
        assert(decode_utf8(encode_utf8(desc@).take(100)) == head@);
        let mut s = head.to_owned();
        push_char(&mut s, '.');
        push_char(&mut s, '.');
        push_char(&mut s, '.');
        assert(s@ =~= head@ + seq!['.', '.', '.']);
        s
    } else {
        desc.to_owned()
    }
}

} // verus!
