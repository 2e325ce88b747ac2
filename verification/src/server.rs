//! The decisions behind the OpenAI-compatible endpoints: which message is
//! the input, which model answers, which request is refused and how, and
//! what the completion reports.
use vstd::prelude::*;

use crate::chars::{chars_of, matches_at, push_all, same_chars, string_of};
use crate::convert::Conversion;
use crate::pipeline::{
    post_process, spec_finish, spec_prepare, spec_strip_transcript_tags, strip_transcript_tags,
};

verus! {

/// One element of an array-valued message content, as its JSON gives it:
/// the `text` field when it is a string, the `content` field when it is a
/// string, and the element itself when it is a string.
pub struct ContentPart {
    pub text: Option<String>,
    pub content: Option<String>,
    pub plain: Option<String>,
}

/// A message's `content`: a string, an array of parts, or anything else
/// (absent included).
pub enum MessageContent {
    Missing,
    Text(String),
    Parts(Vec<ContentPart>),
}

/// One chat message: its `role` when it is a string, and its content.
pub struct Message {
    pub role: Option<String>,
    pub content: MessageContent,
}

/// A chat completion request: `model` when it is a string, `messages` when
/// it is an array.
pub struct ChatRequest {
    pub model: Option<String>,
    pub messages: Option<Vec<Message>>,
}

/// The ways a request is refused.
#[derive(PartialEq, Eq, Structural)]
pub enum ChatError {
    InvalidJson,
    MissingMessages,
    EmptyMessages,
    NotFound,
}

/// What a completion reports.
pub struct ChatReply {
    pub model: String,
    pub input: String,
    pub output: String,
    pub prompt_tokens: u32,
    pub completion_tokens: u32,
    pub total_tokens: u32,
}

pub open spec fn base_id() -> Seq<char> {
    seq!['t', 'o', 'n', 'g', 'w', 'e', 'n']
}

pub open spec fn voiceink_suffix() -> Seq<char> {
    seq!['-', 'v', 'o', 'i', 'c', 'e', 'i', 'n', 'k']
}

pub open spec fn voiceink_id() -> Seq<char> {
    base_id() + voiceink_suffix()
}

/// A VoiceInk model: its name ends with `-voiceink`.
pub open spec fn is_voiceink(model: Seq<char>) -> bool {
    model.len() >= voiceink_suffix().len() && model.subrange(
        model.len() - voiceink_suffix().len(),
        model.len() as int,
    ) == voiceink_suffix()
}

pub open spec fn user_role() -> Seq<char> {
    seq!['u', 's', 'e', 'r']
}

pub open spec fn part_text(p: ContentPart) -> Seq<char> {
    match p.text {
        Some(t) => t@,
        None => match p.content {
            Some(c) => c@,
            None => match p.plain {
                Some(s) => s@,
                None => Seq::empty(),
            },
        },
    }
}

/// The texts of the first `k` parts, concatenated.
pub open spec fn parts_text(ps: Seq<ContentPart>, k: int) -> Seq<char>
    decreases k,
{
    if k <= 0 {
        Seq::empty()
    } else {
        parts_text(ps, k - 1) + part_text(ps[k - 1])
    }
}

/// The text of a message: its string content, or the texts of its parts in
/// order, or nothing.
pub open spec fn message_text(m: Message) -> Seq<char> {
    match m.content {
        MessageContent::Missing => Seq::empty(),
        MessageContent::Text(s) => s@,
        MessageContent::Parts(ps) => parts_text(ps@, ps@.len() as int),
    }
}

pub open spec fn is_user(m: Message) -> bool {
    m.role matches Some(r) && r@ == user_role()
}

/// The index of the last user message among the first `k`, or -1.
pub open spec fn last_user_below(ms: Seq<Message>, k: int) -> int
    decreases k,
{
    if k <= 0 {
        -1
    } else if is_user(ms[k - 1]) {
        k - 1
    } else {
        last_user_below(ms, k - 1)
    }
}

/// The input of a conversation: the text of its last user message, or of
/// its last message when no message is from the user.
pub open spec fn spec_pick_input(ms: Seq<Message>) -> Seq<char> {
    let u = last_user_below(ms, ms.len() as int);
    if u >= 0 {
        message_text(ms[u])
    } else if ms.len() > 0 {
        message_text(ms.last())
    } else {
        Seq::empty()
    }
}

/// The model that answers: the requested one, or `tongwen` when none (or
/// an empty one) is requested.
pub open spec fn spec_resolve_model(model: Option<String>) -> Seq<char> {
    match model {
        Some(m) => if m@.len() == 0 {
            base_id()
        } else {
            m@
        },
        None => base_id(),
    }
}

/// The input handed to the chain: tags stripped for a VoiceInk model.
pub open spec fn spec_chat_input(model: Seq<char>, raw: Seq<char>) -> Seq<char> {
    if is_voiceink(model) {
        spec_strip_transcript_tags(raw)
    } else {
        raw
    }
}

pub open spec fn token_count(n: nat) -> int {
    n as int % 0x1_0000_0000
}

pub fn base_model_id() -> (r: String)
    ensures
        r@ == base_id(),
{
    let v = vec!['t', 'o', 'n', 'g', 'w', 'e', 'n'];
    assert(v@ == base_id());
    string_of(&v)
}

pub fn voiceink_model_id() -> (r: String)
    ensures
        r@ == voiceink_id(),
{
    let v = vec!['t', 'o', 'n', 'g', 'w', 'e', 'n', '-', 'v', 'o', 'i', 'c', 'e', 'i', 'n', 'k'];
    assert(v@ =~= voiceink_id());
    string_of(&v)
}

/// Whether `model` names a VoiceInk model (ends with `-voiceink`).
pub fn is_voiceink_model(model: &String) -> (b: bool)
    ensures
        b == is_voiceink(model@),
{
    let v = chars_of(model.as_str());
    let suffix = vec!['-', 'v', 'o', 'i', 'c', 'e', 'i', 'n', 'k'];
    assert(suffix@ == voiceink_suffix());
    if v.len() < suffix.len() {
        return false;
    }
    matches_at(&v, &suffix, v.len() - suffix.len())
}

/// The models listed by `/v1/models`, in order.
pub fn model_ids() -> (r: Vec<String>)
    ensures
        r@.len() == 2,
        r@[0]@ == voiceink_id(),
        r@[1]@ == base_id(),
{
    let mut r: Vec<String> = Vec::new();
    r.push(voiceink_model_id());
    r.push(base_model_id());
    r
}

fn part_text_of(p: &ContentPart) -> (r: Vec<char>)
    ensures
        r@ == part_text(*p),
{
    match &p.text {
        Some(t) => chars_of(t.as_str()),
        None => match &p.content {
            Some(c) => chars_of(c.as_str()),
            None => match &p.plain {
                Some(s) => chars_of(s.as_str()),
                None => Vec::new(),
            },
        },
    }
}

/// The text of a message.
pub fn extract_text(m: &Message) -> (r: String)
    ensures
        r@ == message_text(*m),
{
    match &m.content {
        MessageContent::Missing => String::new(),
        MessageContent::Text(s) => string_of(&chars_of(s.as_str())),
        MessageContent::Parts(ps) => {
            let mut out: Vec<char> = Vec::new();
            let mut i: usize = 0;
            while i < ps.len()
                invariant
                    i <= ps.len(),
                    out@ == parts_text(ps@, i as int),
                decreases ps.len() - i,
            {
                let t = part_text_of(&ps[i]);
                push_all(&mut out, &t);
                i += 1;
            }
            string_of(&out)
        },
    }
}

fn is_user_message(m: &Message) -> (b: bool)
    ensures
        b == is_user(*m),
{
    match &m.role {
        Some(r) => {
            let u = vec!['u', 's', 'e', 'r'];
            assert(u@ == user_role());
            same_chars(&chars_of(r.as_str()), &u)
        },
        None => false,
    }
}

/// The input of a conversation: the last user message, else the last one.
pub fn pick_input(messages: &Vec<Message>) -> (r: String)
    ensures
        r@ == spec_pick_input(messages@),
{
    let mut k: usize = messages.len();
    while k > 0
        invariant
            k <= messages.len(),
            last_user_below(messages@, messages@.len() as int) == last_user_below(messages@, k as int),
        decreases k,
    {
        if is_user_message(&messages[k - 1]) {
            return extract_text(&messages[k - 1]);
        }
        k -= 1;
    }
    if messages.len() > 0 {
        extract_text(&messages[messages.len() - 1])
    } else {
        String::new()
    }
}

/// The model that answers a request.
pub fn resolve_model(model: &Option<String>) -> (r: String)
    ensures
        r@ == spec_resolve_model(*model),
{
    match model {
        Some(m) => {
            let v = chars_of(m.as_str());
            if v.len() == 0 {
                base_model_id()
            } else {
                string_of(&v)
            }
        },
        None => base_model_id(),
    }
}

fn count_tokens(n: usize) -> (r: u32)
    ensures
        r as int == token_count(n as nat),
{
    (n as u64 % 0x1_0000_0000) as u32
}

/// Answers a chat completion request. A request without a `messages` array
/// is refused with `MissingMessages`, one with an empty array with
/// `EmptyMessages`; any other gets the answering model, the input (the
/// last user message, tags stripped when the model's name ends with
/// `-voiceink`), the chain's
/// output for it, and character counts (modulo 2^32) as token counts.
pub fn handle_chat<F: Fn(&str) -> Conversion>(req: &ChatRequest, lists: bool, convert: F) -> (r:
    Result<ChatReply, ChatError>)
    requires
        forall|t: &str| convert.requires((t,)),
    ensures
        req.messages is None ==> r == Err::<ChatReply, ChatError>(ChatError::MissingMessages),
        req.messages matches Some(ms) ==> (ms@.len() == 0 ==> r == Err::<ChatReply, ChatError>(
            ChatError::EmptyMessages,
        )),
        req.messages matches Some(ms) ==> (ms@.len() > 0 ==> (r matches Ok(reply) && {
            let model = spec_resolve_model(req.model);
            let input = spec_chat_input(model, spec_pick_input(ms@));
            &&& reply.model@ == model
            &&& reply.input@ == input
            &&& (input.len() == 0 ==> reply.output@.len() == 0)
            &&& (input.len() > 0 ==> exists|t: &str, c: Conversion|
                {
                    &&& t@ == spec_prepare(input, lists)
                    &&& convert.ensures((t,), c)
                    &&& reply.output@ == spec_finish(t@, c)
                })
            &&& reply.prompt_tokens as int == token_count(input.len())
            &&& reply.completion_tokens as int == token_count(reply.output@.len())
            &&& reply.total_tokens as int == token_count(input.len() + reply.output@.len())
        })),
{
    let model = resolve_model(&req.model);
    let messages = match &req.messages {
        Some(ms) => ms,
        None => {
            return Err(ChatError::MissingMessages);
        },
    };
    if messages.len() == 0 {
        return Err(ChatError::EmptyMessages);
    }
    let raw = pick_input(messages);
    let input = if is_voiceink_model(&model) {
        strip_transcript_tags(raw.as_str())
    } else {
        raw
    };
    let output = post_process(input.as_str(), lists, convert);
    let a = chars_of(input.as_str()).len();
    let b = chars_of(output.as_str()).len();
    let prompt_tokens = count_tokens(a);
    let completion_tokens = count_tokens(b);
    let total_tokens = ((prompt_tokens as u64 + completion_tokens as u64) % 0x1_0000_0000) as u32;
    proof {
        vstd::arithmetic::div_mod::lemma_add_mod_noop(a as int, b as int, 0x1_0000_0000);
    }
    Ok(
        ChatReply {
            model,
            input,
            output,
            prompt_tokens,
            completion_tokens,
            total_tokens,
        },
    )
}

impl ChatError {
    /// The HTTP status of the refusal.
    pub fn status(&self) -> (r: u16)
        ensures
            *self == ChatError::NotFound ==> r == 404,
            *self != ChatError::NotFound ==> r == 400,
    {
        match self {
            ChatError::NotFound => 404,
            _ => 400,
        }
    }

    /// The error message of the refusal.
    pub fn message(&self) -> (r: &'static str)
        ensures
            *self == ChatError::InvalidJson ==> r@ == "Invalid JSON body"@,
            *self == ChatError::MissingMessages ==> r@ == "Invalid request payload: missing messages"@,
            *self == ChatError::EmptyMessages ==> r@ == "`messages` must be a non-empty array"@,
            *self == ChatError::NotFound ==> r@ == "Not Found"@,
    {
        match self {
            ChatError::InvalidJson => "Invalid JSON body",
            ChatError::MissingMessages => "Invalid request payload: missing messages",
            ChatError::EmptyMessages => "`messages` must be a non-empty array",
            ChatError::NotFound => "Not Found",
        }
    }

    /// The error type of the refusal.
    pub fn error_type(&self) -> (r: &'static str)
        ensures
            *self == ChatError::NotFound ==> r@ == "not_found"@,
            *self != ChatError::NotFound ==> r@ == "invalid_request_error"@,
    {
        match self {
            ChatError::NotFound => "not_found",
            _ => "invalid_request_error",
        }
    }
}

} // verus!
