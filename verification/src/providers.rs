//! LLM providers: chat types, provider errors, retry decisions, streamed
//! event decoding and the provider registry.
use vstd::prelude::*;

use crate::error::ContextraError;
use crate::json::{JsonValue, JsonView};
use crate::query::strings;
use crate::table::{distinct_keys, lemma_table_lookup, lemma_table_push, lemma_table_update, table_of};
use crate::text::{
    ascii_lower_of, chars_eq, chars_of, concat_str, is_ascii_upper, is_white_space, string_of, trim,
    trim_chars, trim_start, lemma_trim_ends, lemma_trim_fixed,
};

verus! {

// ---------------------------------------------------------------------------
// Chat types
// ---------------------------------------------------------------------------

/// Author of a chat message.
#[derive(Debug, Clone, Copy, PartialEq, Eq, Structural)]
pub enum ChatRole {
    System,
    User,
    Assistant,
    Tool,
}

/// A function invocation requested by the model.
#[derive(Debug, Clone, PartialEq)]
pub struct FunctionCall {
    pub name: String,
    pub arguments: String,
}

/// A tool call requested by the model.
#[derive(Debug, Clone, PartialEq)]
pub struct ToolCall {
    pub id: String,
    pub function: FunctionCall,
}

/// A chat message.
#[derive(Debug, Clone, PartialEq)]
pub struct ChatMessage {
    pub role: ChatRole,
    pub content: Option<String>,
    pub name: Option<String>,
    pub tool_call_id: Option<String>,
    pub tool_calls: Vec<ToolCall>,
}

/// The characters of an optional string.
pub open spec fn opt_view(s: Option<String>) -> Option<Seq<char>> {
    match s {
        Some(v) => Some(v@),
        None => None,
    }
}

impl ChatMessage {
    /// A message of `role` with text `content` and nothing else.
    pub fn new(role: ChatRole, content: &str) -> (r: Self)
        ensures
            r.role == role,
            opt_view(r.content) == Some(content@),
            r.name is None,
            r.tool_call_id is None,
            r.tool_calls@.len() == 0,
    {
        ChatMessage {
            role,
            content: Some(content.to_owned()),
            name: None,
            tool_call_id: None,
            tool_calls: Vec::new(),
        }
    }

    /// A system message.
    pub fn system(content: &str) -> (r: Self)
        ensures
            r.role == ChatRole::System,
            opt_view(r.content) == Some(content@),
            r.name is None,
            r.tool_call_id is None,
            r.tool_calls@.len() == 0,
    {
        Self::new(ChatRole::System, content)
    }

    /// A user message.
    pub fn user(content: &str) -> (r: Self)
        ensures
            r.role == ChatRole::User,
            opt_view(r.content) == Some(content@),
            r.name is None,
            r.tool_call_id is None,
            r.tool_calls@.len() == 0,
    {
        Self::new(ChatRole::User, content)
    }

    /// An assistant message.
    pub fn assistant(content: &str) -> (r: Self)
        ensures
            r.role == ChatRole::Assistant,
            opt_view(r.content) == Some(content@),
            r.name is None,
            r.tool_call_id is None,
            r.tool_calls@.len() == 0,
    {
        Self::new(ChatRole::Assistant, content)
    }

    /// The result of tool call `tool_call_id`.
    pub fn tool(tool_call_id: &str, content: &str) -> (r: Self)
        ensures
            r.role == ChatRole::Tool,
            opt_view(r.content) == Some(content@),
            r.name is None,
            opt_view(r.tool_call_id) == Some(tool_call_id@),
            r.tool_calls@.len() == 0,
    {
        ChatMessage {
            role: ChatRole::Tool,
            content: Some(content.to_owned()),
            name: None,
            tool_call_id: Some(tool_call_id.to_owned()),
            tool_calls: Vec::new(),
        }
    }
}

/// Token accounting of a completion.
#[derive(Debug, Clone, Copy, PartialEq, Eq, Structural)]
pub struct TokenUsage {
    pub prompt_tokens: u32,
    pub completion_tokens: u32,
    pub total_tokens: u32,
}

/// A complete chat answer.
#[derive(Debug, Clone, PartialEq)]
pub struct ChatResponse {
    pub id: String,
    pub model: String,
    pub message: ChatMessage,
    pub finish_reason: Option<String>,
    pub usage: Option<TokenUsage>,
}

/// A partial function call in a streamed answer.
#[derive(Debug, Clone, PartialEq)]
pub struct FunctionCallDelta {
    pub name: Option<String>,
    pub arguments: Option<String>,
}

/// A partial tool call in a streamed answer.
#[derive(Debug, Clone, PartialEq)]
pub struct ToolCallDelta {
    pub index: u32,
    pub id: Option<String>,
    pub function: Option<FunctionCallDelta>,
}

/// The increment a streamed chunk carries.
#[derive(Debug, Clone, PartialEq)]
pub struct ChatDelta {
    pub role: Option<ChatRole>,
    pub content: Option<String>,
    pub tool_calls: Vec<ToolCallDelta>,
}

/// One chunk of a streamed answer.
#[derive(Debug, Clone, PartialEq)]
pub struct ChatChunk {
    pub id: String,
    pub model: String,
    pub delta: ChatDelta,
    pub finish_reason: Option<String>,
    pub usage: Option<TokenUsage>,
}

/// Whether and which tool the model should call.
#[derive(Debug, Clone, PartialEq, Eq)]
pub enum ToolChoice {
    /// The model decides.
    Auto,
    /// The model calls no tool (OpenAI's `none`).
    Disabled,
    /// The model must call a tool.
    Required,
    /// The model must call the named function.
    Function { name: String },
}

/// The OpenAI wire value of a tool choice.
pub open spec fn tool_choice_json(choice: ToolChoice) -> JsonView {
    match choice {
        ToolChoice::Auto => JsonView::Str("auto"@),
        ToolChoice::Disabled => JsonView::Str("none"@),
        ToolChoice::Required => JsonView::Str("required"@),
        ToolChoice::Function { name } => JsonView::Object(
            seq![
                ("type"@, JsonView::Str("function"@)),
                ("function"@, JsonView::Object(seq![("name"@, JsonView::Str(name@))])),
            ],
        ),
    }
}

/// The OpenAI wire value of a tool choice: a string, or for a named
/// function an object `{"type": "function", "function": {"name": ..}}`.
pub fn tool_choice_to_openai_value(choice: ToolChoice) -> (r: JsonValue)
    ensures
        r@ == tool_choice_json(choice),
{
    match choice {
        ToolChoice::Auto => JsonValue::String("auto".to_owned()),
        ToolChoice::Disabled => JsonValue::String("none".to_owned()),
        ToolChoice::Required => JsonValue::String("required".to_owned()),
        ToolChoice::Function { name } => {
            let ghost nv = name@;
            let mut inner: Vec<(String, JsonValue)> = Vec::new();
            inner.push(("name".to_owned(), JsonValue::String(name)));
            proof {
                assert(inner@.drop_last() =~= Seq::<(String, JsonValue)>::empty());
                assert(crate::json::entry_views(inner@.drop_last()) =~= Seq::empty());
                assert(inner@.last().0@ == "name"@);
                assert(crate::json::json_view(inner@.last().1) == JsonView::Str(nv));
                assert(crate::json::entry_views(inner@) == crate::json::entry_views(inner@.drop_last()).push(("name"@, JsonView::Str(nv))));
                assert(crate::json::entry_views(inner@) =~= seq![("name"@, JsonView::Str(nv))]);
            }
            let mut outer: Vec<(String, JsonValue)> = Vec::new();
            outer.push(("type".to_owned(), JsonValue::String("function".to_owned())));
            proof {
                assert(outer@.drop_last() =~= Seq::<(String, JsonValue)>::empty());
                assert(crate::json::entry_views(outer@.drop_last()) =~= Seq::empty());
            }
            proof {
                assert(outer@.last().0@ == "type"@);
                assert(crate::json::json_view(outer@.last().1) == JsonView::Str("function"@));
                assert(crate::json::entry_views(outer@) == crate::json::entry_views(outer@.drop_last()).push(("type"@, JsonView::Str("function"@))));
            }
            let ghost first = outer@;
            let ghost inner_view = crate::json::entry_views(inner@);
            outer.push(("function".to_owned(), JsonValue::Object(inner)));
            proof {
                assert(outer@.drop_last() =~= first);
                assert(crate::json::json_view(outer@.last().1) == JsonView::Object(inner_view));
                assert(crate::json::entry_views(outer@) == crate::json::entry_views(first).push(("function"@, JsonView::Object(inner_view))));
                assert(crate::json::entry_views(outer@) =~= seq![
                    ("type"@, JsonView::Str("function"@)),
                    ("function"@, JsonView::Object(seq![("name"@, JsonView::Str(nv))])),
                ]);
            }
            let r = JsonValue::Object(outer);
            r
        },
    }
}

// ---------------------------------------------------------------------------
// Provider errors
// ---------------------------------------------------------------------------

/// Why a provider call failed.  `HttpStatus` holds the numeric HTTP status.
#[derive(Debug)]
pub enum ProviderError {
    MissingConfiguration(String),
    UnsupportedProvider(String),
    InvalidRequest(String),
    Authentication(String),
    RateLimited(String),
    HttpStatus { status: u16, body: String },
    Network(String),
    Timeout(String),
    Decode(String),
    Stream(String),
}

/// Name for the text of an HTTP status as `reqwest::StatusCode` displays
/// it: the code followed by its canonical reason phrase.
pub uninterp spec fn status_text(code: u16) -> Seq<char>;

/// The display text of an HTTP status (`reqwest::StatusCode::from_u16`
/// and its `Display`); the result is named `status_text`.
#[verifier::external_body]
fn status_display(code: u16) -> (r: String)
    ensures
        r@ == status_text(code),
{
    match reqwest::StatusCode::from_u16(code) {
        Ok(status) => status.to_string(),
        Err(_) => code.to_string(),
    }
}

/// The message of a provider error.
pub open spec fn provider_error_text(e: ProviderError) -> Seq<char> {
    match e {
        ProviderError::MissingConfiguration(m) => "missing provider configuration: "@ + m@,
        ProviderError::UnsupportedProvider(m) => "unsupported provider: "@ + m@,
        ProviderError::InvalidRequest(m) => "invalid provider request: "@ + m@,
        ProviderError::Authentication(m) => "provider authentication failed: "@ + m@,
        ProviderError::RateLimited(m) => "provider rate limit exceeded: "@ + m@,
        ProviderError::HttpStatus { status, body } => "provider returned HTTP "@ + status_text(
            status,
        ) + ": "@ + body@,
        ProviderError::Network(m) => "provider network error: "@ + m@,
        ProviderError::Timeout(m) => "provider timeout: "@ + m@,
        ProviderError::Decode(m) => "failed to decode provider response: "@ + m@,
        ProviderError::Stream(m) => "provider stream error: "@ + m@,
    }
}

impl ProviderError {
    /// The message of this error.
    pub fn message(&self) -> (r: String)
        ensures
            r@ == provider_error_text(*self),
    {
        match self {
            ProviderError::MissingConfiguration(m) => concat_str(
                "missing provider configuration: ",
                m.as_str(),
            ),
            ProviderError::UnsupportedProvider(m) => concat_str("unsupported provider: ", m.as_str()),
            ProviderError::InvalidRequest(m) => concat_str("invalid provider request: ", m.as_str()),
            ProviderError::Authentication(m) => concat_str(
                "provider authentication failed: ",
                m.as_str(),
            ),
            ProviderError::RateLimited(m) => concat_str("provider rate limit exceeded: ", m.as_str()),
            ProviderError::HttpStatus { status, body } => {
                let st = status_display(*status);
                let a = concat_str("provider returned HTTP ", st.as_str());
                let b = concat_str(a.as_str(), ": ");
                concat_str(b.as_str(), body.as_str())
            },
            ProviderError::Network(m) => concat_str("provider network error: ", m.as_str()),
            ProviderError::Timeout(m) => concat_str("provider timeout: ", m.as_str()),
            ProviderError::Decode(m) => concat_str("failed to decode provider response: ", m.as_str()),
            ProviderError::Stream(m) => concat_str("provider stream error: ", m.as_str()),
        }
    }

    /// The error for a request that failed before a response arrived.
    pub fn from_request_failure(is_timeout: bool, message: String) -> (r: Self)
        ensures
            is_timeout ==> r == ProviderError::Timeout(message),
            !is_timeout ==> r == ProviderError::Network(message),
    {
        if is_timeout {
            ProviderError::Timeout(message)
        } else {
            ProviderError::Network(message)
        }
    }
}

/// The library error a provider error maps to: configuration and request
/// problems are validation errors, rejected credentials (also HTTP 401) are
/// unauthorized, HTTP 403 is forbidden, rate limits (also HTTP 429) are rate
/// limited, and anything else is a provider error carrying the message.
pub open spec fn maps_to(e: ProviderError, c: ContextraError) -> bool {
    match e {
        ProviderError::MissingConfiguration(m) => c matches ContextraError::Validation(x) && x@ == m@,
        ProviderError::InvalidRequest(m) => c matches ContextraError::Validation(x) && x@ == m@,
        ProviderError::UnsupportedProvider(m) => c matches ContextraError::Validation(x) && x@ == m@,
        ProviderError::Authentication(m) => c matches ContextraError::Unauthorized(x) && x@ == m@,
        ProviderError::RateLimited(m) => c matches ContextraError::RateLimited(x) && x@ == m@,
        ProviderError::HttpStatus { status, body } => if status == 401 {
            c matches ContextraError::Unauthorized(x) && x@ == body@
        } else if status == 403 {
            c matches ContextraError::Forbidden(x) && x@ == body@
        } else if status == 429 {
            c matches ContextraError::RateLimited(x) && x@ == body@
        } else {
            c matches ContextraError::ProviderError(x) && x@ == provider_error_text(e)
        },
        _ => c matches ContextraError::ProviderError(x) && x@ == provider_error_text(e),
    }
}

impl ContextraError {
    /// The library error for a provider error.
    pub fn from_provider_error(error: ProviderError) -> (r: Self)
        ensures
            maps_to(error, r),
    {
        match error {
            ProviderError::MissingConfiguration(m) => ContextraError::Validation(m),
            ProviderError::InvalidRequest(m) => ContextraError::Validation(m),
            ProviderError::UnsupportedProvider(m) => ContextraError::Validation(m),
            ProviderError::Authentication(m) => ContextraError::Unauthorized(m),
            ProviderError::RateLimited(m) => ContextraError::RateLimited(m),
            ProviderError::HttpStatus { status, body } => {
                if status == 401 {
                    ContextraError::Unauthorized(body)
                } else if status == 403 {
                    ContextraError::Forbidden(body)
                } else if status == 429 {
                    ContextraError::RateLimited(body)
                } else {
                    let e = ProviderError::HttpStatus { status, body };
                    ContextraError::ProviderError(e.message())
                }
            },
            other => ContextraError::ProviderError(other.message()),
        }
    }
}

impl From<ProviderError> for ContextraError {
    fn from(error: ProviderError) -> (r: Self)
        ensures
            maps_to(error, r),
    {
        ContextraError::from_provider_error(error)
    }
}

impl vstd::std_specs::convert::FromSpecImpl<ProviderError> for ContextraError {
    open spec fn obeys_from_spec() -> bool {
        false
    }

    open spec fn from_spec(v: ProviderError) -> ContextraError {
        vstd::pervasive::arbitrary()
    }
}

// ---------------------------------------------------------------------------
// HTTP outcomes and retries
// ---------------------------------------------------------------------------

/// The error for an unsuccessful HTTP status: 401 and 403 are
/// authentication failures, 429 is a rate limit, others keep the status.
pub open spec fn status_error(status: u16, body: String) -> ProviderError {
    if status == 401 || status == 403 {
        ProviderError::Authentication(body)
    } else if status == 429 {
        ProviderError::RateLimited(body)
    } else {
        ProviderError::HttpStatus { status, body }
    }
}

/// The error for an unsuccessful HTTP status.
pub fn map_status_error(status: u16, body: String) -> (r: ProviderError)
    ensures
        r == status_error(status, body),
{
    if status == 401 || status == 403 {
        ProviderError::Authentication(body)
    } else if status == 429 {
        ProviderError::RateLimited(body)
    } else {
        ProviderError::HttpStatus { status, body }
    }
}

/// Statuses worth retrying: 429 and the server errors (500 to 599).
pub open spec fn retryable_status(status: u16) -> bool {
    status == 429 || (500 <= status && status <= 599)
}

/// Whether a status is worth retrying.
pub fn is_retryable_status(status: u16) -> (r: bool)
    ensures
        r == retryable_status(status),
{
    status == 429 || (500 <= status && status <= 599)
}

/// Whether a request error is worth retrying: timeouts and network errors.
pub fn is_retryable_request_error(error: &ProviderError) -> (r: bool)
    ensures
        r == (error is Timeout || error is Network),
{
    match error {
        ProviderError::Timeout(_) | ProviderError::Network(_) => true,
        _ => false,
    }
}

/// What one attempt of a request came to.
#[derive(Debug)]
pub enum AttemptOutcome {
    /// A response with a success status.
    Success,
    /// A response with an unsuccessful status and its body.
    Status { status: u16, body: String },
    /// No response: the request failed.
    Failed(ProviderError),
}

/// What to do after an attempt.
#[derive(Debug)]
pub enum RetryStep {
    /// Hand the successful response to the caller.
    Deliver,
    /// Give up with this error.
    Fail(ProviderError),
    /// Wait for the backoff of this attempt, then try again.
    Retry,
}

/// The decision after attempt number `attempt` (counting from 0) of at most
/// `max_retries + 1`: deliver a success; retry a retryable failure while
/// attempts remain; otherwise fail with the failure's error.
pub open spec fn retry_decision(attempt: nat, max_retries: nat, outcome: AttemptOutcome) -> RetryStep {
    match outcome {
        AttemptOutcome::Success => RetryStep::Deliver,
        AttemptOutcome::Status { status, body } => if !retryable_status(status) || attempt
            >= max_retries {
            RetryStep::Fail(status_error(status, body))
        } else {
            RetryStep::Retry
        },
        AttemptOutcome::Failed(e) => if !(e is Timeout || e is Network) || attempt >= max_retries {
            RetryStep::Fail(e)
        } else {
            RetryStep::Retry
        },
    }
}

/// Decides what follows attempt `attempt` of a request with `max_retries`
/// retries.
pub fn next_retry_step(attempt: usize, max_retries: usize, outcome: AttemptOutcome) -> (r: RetryStep)
    requires
        attempt <= max_retries,
    ensures
        r == retry_decision(attempt as nat, max_retries as nat, outcome),
{
    match outcome {
        AttemptOutcome::Success => RetryStep::Deliver,
        AttemptOutcome::Status { status, body } => {
            if !is_retryable_status(status) || attempt == max_retries {
                RetryStep::Fail(map_status_error(status, body))
            } else {
                RetryStep::Retry
            }
        },
        AttemptOutcome::Failed(e) => {
            if !is_retryable_request_error(&e) || attempt == max_retries {
                RetryStep::Fail(e)
            } else {
                RetryStep::Retry
            }
        },
    }
}

/// The largest duration, in nanoseconds (`Duration::MAX`).
pub open spec fn max_duration_nanos() -> nat {
    18446744073709551615 * 1000000000 + 999999999
}

/// `2^e`.
pub open spec fn pow2(e: nat) -> nat
    decreases e,
{
    if e == 0 {
        1
    } else {
        2 * pow2((e - 1) as nat)
    }
}

/// The backoff before retrying after attempt `attempt`, before jitter:
/// `initial * 2^min(attempt, 16)`, saturating at the largest duration,
/// capped at `max`; all in nanoseconds.
pub open spec fn backoff_nanos(initial: nat, max: nat, attempt: nat) -> nat {
    let e = if attempt <= 16 {
        attempt
    } else {
        16
    };
    let grown = initial * pow2(e);
    let base = if grown > max_duration_nanos() {
        max_duration_nanos()
    } else {
        grown
    };
    if base <= max {
        base
    } else {
        max
    }
}

/// The backoff before retrying after attempt `attempt`, before jitter, in
/// nanoseconds.
pub fn capped_backoff_nanos(initial_nanos: u128, max_nanos: u128, attempt: usize) -> (r: u128)
    requires
        initial_nanos <= max_duration_nanos(),
        max_nanos <= max_duration_nanos(),
    ensures
        r == backoff_nanos(initial_nanos as nat, max_nanos as nat, attempt as nat),
{
    let e: u32 = if attempt <= 16 { attempt as u32 } else { 16 };
    let mut multiplier: u128 = 1;
    let mut k: u32 = 0;
    while k < e
        invariant
            k <= e <= 16,
            multiplier == pow2(k as nat),
            multiplier <= 65536,
        decreases e - k,
    {
        proof {
            lemma_pow2_bound(k as nat);
        }
        multiplier = multiplier * 2;
        k = k + 1;
    }
    proof {
        assert(initial_nanos * multiplier <= max_duration_nanos() * 65536) by (nonlinear_arith)
            requires
                initial_nanos <= max_duration_nanos(),
                multiplier <= 65536,
        ;
    }
    let grown = initial_nanos * multiplier;
    let limit: u128 = 18446744073709551615u128 * 1000000000u128 + 999999999u128;
    let base = if grown > limit { limit } else { grown };
    if base <= max_nanos {
        base
    } else {
        max_nanos
    }
}

proof fn lemma_pow2_bound(k: nat)
    requires
        k < 16,
    ensures
        pow2(k + 1) <= 65536,
        pow2(k + 1) == 2 * pow2(k),
{
    lemma_pow2_mono((k + 1) as nat, 16);
    reveal_with_fuel(pow2, 17);
    assert(pow2(16) == 65536);
}

proof fn lemma_pow2_mono(a: nat, b: nat)
    requires
        a <= b,
    ensures
        pow2(a) <= pow2(b),
    decreases b - a,
{
    if a < b {
        lemma_pow2_mono(a, (b - 1) as nat);
    }
}

/// A request is tried at most `max_retries + 1` times: no attempt from
/// number `max_retries` on is retried, only a retryable status, a timeout
/// or a network failure is, and a success is always delivered.
pub proof fn law_retry_bounded(attempt: nat, max_retries: nat, outcome: AttemptOutcome)
    ensures
        retry_decision(attempt, max_retries, outcome) is Retry ==> attempt < max_retries,
        retry_decision(attempt, max_retries, outcome) is Retry ==> match outcome {
            AttemptOutcome::Success => false,
            AttemptOutcome::Status { status, .. } => retryable_status(status),
            AttemptOutcome::Failed(e) => e is Timeout || e is Network,
        },
        outcome is Success <==> retry_decision(attempt, max_retries, outcome) is Deliver,
{
}

/// While attempts remain, a transient failure is retried: a 429 or a
/// server-error status (500 to 599), a timeout, or a network failure.
pub proof fn law_transient_failures_retried(attempt: nat, max_retries: nat, outcome: AttemptOutcome)
    requires
        attempt < max_retries,
        match outcome {
            AttemptOutcome::Status { status, .. } => status == 429 || (500 <= status && status <= 599),
            AttemptOutcome::Failed(e) => e is Timeout || e is Network,
            AttemptOutcome::Success => false,
        },
    ensures
        retry_decision(attempt, max_retries, outcome) is Retry,
{
}

/// The backoff never exceeds its cap, and it never shrinks from one attempt
/// to a later one.
pub proof fn law_backoff_capped_and_growing(initial: nat, max: nat, a: nat, b: nat)
    requires
        a <= b,
    ensures
        backoff_nanos(initial, max, a) <= max,
        backoff_nanos(initial, max, a) <= backoff_nanos(initial, max, b),
{
    let ea: nat = if a <= 16 {
        a
    } else {
        16
    };
    let eb: nat = if b <= 16 {
        b
    } else {
        16
    };
    lemma_pow2_mono(ea, eb);
    let pa = pow2(ea);
    let pb = pow2(eb);
    assert(initial * pa <= initial * pb) by (nonlinear_arith)
        requires
            pa <= pb,
    ;
}

// ---------------------------------------------------------------------------
// Provider names, settings and endpoints
// ---------------------------------------------------------------------------

/// A provider name as the registry keys it: trimmed and ASCII-lowercased.
pub open spec fn provider_key(name: Seq<char>) -> Seq<char> {
    trim(name).map_values(|c: char| ascii_lower_of(c))
}

/// A trimmed, ASCII-lowercased name keys the same entry as the name: the
/// registry key of a key is that key.
pub proof fn law_provider_key_idempotent(name: Seq<char>)
    ensures
        provider_key(provider_key(name)) == provider_key(name),
{
    let t = trim(name);
    lemma_trim_ends(name);
    let m = provider_key(name);
    assert(m.len() == t.len());
    if m.len() > 0 {
        assert(!is_white_space(m[0]));
        assert(!is_white_space(m.last()));
    }
    lemma_trim_fixed(m);
    assert(m.map_values(|c: char| ascii_lower_of(c)) =~= m);
}

/// The registry key of a provider name.
pub fn normalize_provider_name(name: &str) -> (r: String)
    ensures
        r@ == provider_key(name@),
{
    let cs = chars_of(name);
    let t = trim_chars(&cs);
    let mut out: Vec<char> = Vec::new();
    let mut i: usize = 0;
    while i < t.len()
        invariant
            i <= t.len(),
            out@ == t@.take(i as int).map_values(|c: char| ascii_lower_of(c)),
        decreases t.len() - i,
    {
        out.push(crate::text::ascii_lower_char(t[i]));
        i = i + 1;
        proof {
            assert(out@ =~= t@.take(i as int).map_values(|c: char| ascii_lower_of(c)));
        }
    }
    proof {
        assert(t@.take(t.len() as int) =~= t@);
    }
    string_of(&out)
}

/// Credentials of the providers.
#[derive(Debug, Clone, Default, PartialEq)]
pub struct ProvidersSettings {
    pub openai_api_key: Option<String>,
    pub anthropic_api_key: Option<String>,
}

/// The API key with which to create the provider called `name`: OpenAI is
/// the one provider supported, and it needs its key.
pub fn openai_key_for(settings: &ProvidersSettings, name: &str) -> (r: Result<String, ProviderError>)
    ensures
        provider_key(name@) == "openai"@ ==> match settings.openai_api_key {
            Some(k) => (r matches Ok(v) && v@ == k@),
            None => (r matches Err(ProviderError::MissingConfiguration(m)) && m@
                == "providers.openai_api_key is required"@),
        },
        provider_key(name@) != "openai"@ ==> (r matches Err(ProviderError::UnsupportedProvider(m))
            && m@ == provider_key(name@)),
{
    let key = normalize_provider_name(name);
    let kc = chars_of(key.as_str());
    if crate::text::chars_eq_str(&kc, "openai") {
        match &settings.openai_api_key {
            Some(k) => Ok(k.clone()),
            None => Err(ProviderError::MissingConfiguration("providers.openai_api_key is required".to_owned())),
        }
    } else {
        Err(ProviderError::UnsupportedProvider(key))
    }
}

/// `s` without trailing `/` characters.
pub open spec fn without_trailing_slashes(s: Seq<char>) -> Seq<char>
    decreases s.len(),
{
    if s.len() > 0 && s.last() == '/' {
        without_trailing_slashes(s.drop_last())
    } else {
        s
    }
}

/// A base URL without its trailing slashes.
pub fn trim_trailing_slashes(url: &str) -> (r: String)
    ensures
        r@ == without_trailing_slashes(url@),
{
    let cs = chars_of(url);
    let mut k: usize = cs.len();
    proof {
        assert(cs@.take(k as int) =~= cs@);
    }
    while k > 0 && cs[k - 1] == '/'
        invariant
            k <= cs.len(),
            without_trailing_slashes(cs@.take(k as int)) == without_trailing_slashes(cs@),
        decreases k,
    {
        proof {
            assert(cs@.take(k as int).drop_last() =~= cs@.take(k - 1));
        }
        k = k - 1;
    }
    let mut out: Vec<char> = Vec::new();
    let mut j: usize = 0;
    while j < k
        invariant
            j <= k <= cs.len(),
            out@ == cs@.take(j as int),
        decreases k - j,
    {
        out.push(cs[j]);
        j = j + 1;
        proof {
            assert(out@ =~= cs@.take(j as int));
        }
    }
    proof {
        assert(cs@.take(cs.len() as int) =~= cs@);
    }
    string_of(&out)
}

/// The chat completions endpoint under a base URL.
pub fn chat_completions_url(base_url: &str) -> (r: String)
    ensures
        r@ == base_url@ + "/v1/chat/completions"@,
{
    concat_str(base_url, "/v1/chat/completions")
}

// ---------------------------------------------------------------------------
// Provider registry
// ---------------------------------------------------------------------------

/// `a` comes before `b` in lexicographic order of code points (the order of
/// `String`, whose UTF-8 bytes order as their code points do).
pub open spec fn lex_lt(a: Seq<char>, b: Seq<char>) -> bool
    decreases a.len(),
{
    if a.len() == 0 {
        b.len() > 0
    } else if b.len() == 0 {
        false
    } else if a[0] != b[0] {
        a[0] < b[0]
    } else {
        lex_lt(a.drop_first(), b.drop_first())
    }
}

proof fn lemma_lex_irreflexive(a: Seq<char>)
    ensures
        !lex_lt(a, a),
    decreases a.len(),
{
    if a.len() > 0 {
        lemma_lex_irreflexive(a.drop_first());
    }
}

proof fn lemma_lex_trans(a: Seq<char>, b: Seq<char>, c: Seq<char>)
    requires
        lex_lt(a, b),
        lex_lt(b, c),
    ensures
        lex_lt(a, c),
    decreases a.len(),
{
    if a.len() > 0 && b.len() > 0 && c.len() > 0 && a[0] == b[0] && b[0] == c[0] {
        lemma_lex_trans(a.drop_first(), b.drop_first(), c.drop_first());
    }
}

proof fn lemma_lex_total(a: Seq<char>, b: Seq<char>)
    requires
        a != b,
    ensures
        lex_lt(a, b) || lex_lt(b, a),
    decreases a.len(),
{
    if a.len() > 0 && b.len() > 0 && a[0] == b[0] {
        if a.drop_first() == b.drop_first() {
            assert(a =~= seq![a[0]] + a.drop_first());
            assert(b =~= seq![b[0]] + b.drop_first());
        }
        lemma_lex_total(a.drop_first(), b.drop_first());
    } else if a.len() == 0 && b.len() == 0 {
        assert(a =~= b);
    }
}

/// Whether `a` comes before `b`.
fn lex_less(a: &Vec<char>, b: &Vec<char>) -> (r: bool)
    ensures
        r == lex_lt(a@, b@),
{
    let mut i: usize = 0;
    proof {
        assert(a@.skip(0) =~= a@);
        assert(b@.skip(0) =~= b@);
    }
    while i < a.len() && i < b.len() && a[i] == b[i]
        invariant
            i <= a.len(),
            i <= b.len(),
            lex_lt(a@, b@) == lex_lt(a@.skip(i as int), b@.skip(i as int)),
        decreases a.len() - i,
    {
        proof {
            assert(a@.skip(i as int).drop_first() =~= a@.skip(i + 1));
            assert(b@.skip(i as int).drop_first() =~= b@.skip(i + 1));
        }
        i = i + 1;
    }
    if i == a.len() {
        i < b.len()
    } else if i == b.len() {
        false
    } else {
        assert(a@.skip(i as int)[0] == a@[i as int]);
        assert(b@.skip(i as int)[0] == b@[i as int]);
        a[i] < b[i]
    }
}

/// The strings are in strictly increasing order.
pub open spec fn strictly_sorted(v: Seq<Seq<char>>) -> bool {
    forall|i: int, j: int| 0 <= i < j < v.len() ==> lex_lt(v[i], v[j])
}

/// The names and providers of a registry's entries.
pub open spec fn provider_entries<P>(v: Seq<(String, P)>) -> Seq<(Seq<char>, P)> {
    v.map_values(|e: (String, P)| (e.0@, e.1))
}

/// LLM providers by normalized name.
pub struct ProviderRegistry<P> {
    llm_providers: Vec<(String, P)>,
}

impl<P> View for ProviderRegistry<P> {
    type V = Map<Seq<char>, P>;

    closed spec fn view(&self) -> Map<Seq<char>, P> {
        table_of(provider_entries(self.llm_providers@))
    }
}

impl<P> ProviderRegistry<P> {
    #[verifier::type_invariant]
    closed spec fn names_distinct(self) -> bool {
        distinct_keys(provider_entries(self.llm_providers@))
    }

    /// An empty registry.
    pub fn new() -> (r: Self)
        ensures
            r@ == Map::<Seq<char>, P>::empty(),
    {
        let v: Vec<(String, P)> = Vec::new();
        proof {
            assert(provider_entries(v@) =~= Seq::<(Seq<char>, P)>::empty());
        }
        ProviderRegistry { llm_providers: v }
    }

    fn position(&self, key: &String) -> (r: Option<usize>)
        ensures
            match r {
                Some(i) => i < self.llm_providers.len() && provider_entries(self.llm_providers@)[i as int].0
                    == key@,
                None => forall|j: int|
                    0 <= j < self.llm_providers.len() ==> provider_entries(
                        self.llm_providers@,
                    )[j].0 != key@,
            },
    {
        let mut i: usize = 0;
        while i < self.llm_providers.len()
            invariant
                i <= self.llm_providers.len(),
                forall|j: int| 0 <= j < i ==> provider_entries(self.llm_providers@)[j].0 != key@,
            decreases self.llm_providers.len() - i,
        {
            if self.llm_providers[i].0 == *key {
                return Some(i);
            }
            i = i + 1;
        }
        None
    }

    /// Registers `provider` under the normalized `name`; returns the
    /// provider it replaced, if any.
    pub fn register_llm(&mut self, name: &str, provider: P) -> (r: Option<P>)
        ensures
            final(self)@ == old(self)@.insert(provider_key(name@), provider),
            match r {
                Some(p) => old(self)@.contains_key(provider_key(name@)) && old(self)@[provider_key(
                    name@,
                )] == p,
                None => !old(self)@.contains_key(provider_key(name@)),
            },
    {
        proof {
            use_type_invariant(&*self);
        }
        let key = normalize_provider_name(name);
        let ghost es = provider_entries(self.llm_providers@);
        let ghost kv = key@;
        proof {
            lemma_table_lookup(es, kv);
        }
        let found = self.position(&key);
        let mut entries: Vec<(String, P)> = Vec::new();
        proof {
            assert(provider_entries(entries@) =~= Seq::<(Seq<char>, P)>::empty());
        }
        std::mem::swap(&mut entries, &mut self.llm_providers);
        match found {
            Some(i) => {
                let ghost before = entries@;
                let (k, old_provider) = entries.remove(i);
                let ghost pv = provider;
                entries.insert(i, (k, provider));
                proof {
                    assert(entries@ =~= before.update(i as int, (before[i as int].0, pv)));
                    assert(provider_entries(entries@) =~= es.update(i as int, (es[i as int].0, pv)));
                    lemma_table_update(es, i as int, pv);
                }
                self.llm_providers = entries;
                Some(old_provider)
            },
            None => {
                let ghost pv = provider;
                entries.push((key, provider));
                proof {
                    assert(provider_entries(entries@) =~= es.push((kv, pv)));
                    lemma_table_push(es, kv, pv);
                }
                self.llm_providers = entries;
                None
            },
        }
    }

    /// Whether a provider is registered under the normalized `name`.
    pub fn contains_llm(&self, name: &str) -> (r: bool)
        ensures
            r == self@.contains_key(provider_key(name@)),
    {
        proof {
            use_type_invariant(self);
        }
        let key = normalize_provider_name(name);
        proof {
            lemma_table_lookup(provider_entries(self.llm_providers@), key@);
        }
        match self.position(&key) {
            Some(_) => true,
            None => false,
        }
    }

    /// The registered names, in increasing order.
    pub fn llm_names(&self) -> (r: Vec<String>)
        ensures
            strictly_sorted(strings(r@)),
            strings(r@).to_set() == self@.dom(),
            r.len() == self@.dom().len(),
    {
        proof {
            use_type_invariant(self);
            crate::table::lemma_table_len(provider_entries(self.llm_providers@));
        }
        let ghost es = provider_entries(self.llm_providers@);
        let mut names: Vec<String> = Vec::new();
        let mut i: usize = 0;
        while i < self.llm_providers.len()
            invariant
                i <= self.llm_providers.len(),
                es == provider_entries(self.llm_providers@),
                distinct_keys(es),
                strictly_sorted(strings(names@)),
                strings(names@).len() == i,
                forall|x: Seq<char>|
                    strings(names@).contains(x) <==> exists|j: int| 0 <= j < i && es[j].0 == x,
            decreases self.llm_providers.len() - i,
        {
            let name = self.llm_providers[i].0.clone();
            proof {
                assert(es[i as int].0 == name@);
                assert(!strings(names@).contains(name@)) by {
                    if strings(names@).contains(name@) {
                        let j = choose|j: int| 0 <= j < i && es[j].0 == name@;
                        assert(es[j].0 == es[i as int].0);
                    }
                }
            }
            let ghost before = strings(names@);
            insert_sorted(&mut names, name);
            proof {
                assert forall|x: Seq<char>|
                    strings(names@).contains(x) <==> exists|j: int| 0 <= j < i + 1 && es[j].0 == x by {
                    if strings(names@).contains(x) && x != es[i as int].0 {
                        assert(before.contains(x));
                    }
                    if exists|j: int| 0 <= j < i + 1 && es[j].0 == x {
                        let j = choose|j: int| 0 <= j < i + 1 && es[j].0 == x;
                        if j < i {
                            assert(before.contains(x));
                        }
                    }
                }
            }
            i = i + 1;
        }
        proof {
            let sn = strings(names@);
            assert forall|x: Seq<char>| sn.to_set().contains(x) == self@.dom().contains(x) by {
                lemma_table_lookup(es, x);
            }
            assert(sn.to_set() =~= self@.dom());
            assert(sn.no_duplicates()) by {
                assert forall|a: int, b: int| 0 <= a < sn.len() && 0 <= b < sn.len() && a != b implies sn[a] != sn[b] by {
                    if a < b {
                        lemma_lex_irreflexive(sn[a]);
                    } else {
                        lemma_lex_irreflexive(sn[b]);
                    }
                }
            }
            sn.unique_seq_to_set();
        }
        names
    }
}

/// What a lookup gives back after a registration: the provider registered
/// under `name` is found under every name with the same key (the same name
/// up to surrounding whitespace and ASCII case), including the key itself
/// as `llm_names` lists it; every other key keeps its entry or its absence.
pub proof fn law_registry_register_lookup<P>(
    before: Map<Seq<char>, P>,
    name: Seq<char>,
    query: Seq<char>,
    provider: P,
)
    ensures
        ({
            let after = before.insert(provider_key(name), provider);
            &&& provider_key(query) == provider_key(name) ==> after.contains_key(provider_key(query))
                && after[provider_key(query)] == provider
            &&& after.contains_key(provider_key(provider_key(name)))
            &&& after[provider_key(provider_key(name))] == provider
            &&& provider_key(query) != provider_key(name) ==> (after.contains_key(
                provider_key(query),
            ) == before.contains_key(provider_key(query)) && after[provider_key(query)]
                == before[provider_key(query)])
        }),
{
    law_provider_key_idempotent(name);
}

impl<P: Clone> ProviderRegistry<P> {
    /// The provider registered under the normalized `name`, if any (a clone
    /// of it).
    pub fn get_llm(&self, name: &str) -> (r: Option<P>)
        ensures
            match r {
                Some(p) => self@.contains_key(provider_key(name@)) && cloned(
                    self@[provider_key(name@)],
                    p,
                ),
                None => !self@.contains_key(provider_key(name@)),
            },
    {
        proof {
            use_type_invariant(self);
        }
        let key = normalize_provider_name(name);
        proof {
            lemma_table_lookup(provider_entries(self.llm_providers@), key@);
        }
        match self.position(&key) {
            Some(i) => Some(self.llm_providers[i].1.clone()),
            None => None,
        }
    }
}

impl<P: Clone> Clone for ProviderRegistry<P> {
    fn clone(&self) -> (r: Self)
        ensures
            r@.dom() == self@.dom(),
    {
        proof {
            use_type_invariant(self);
        }
        let ghost es = provider_entries(self.llm_providers@);
        let mut v: Vec<(String, P)> = Vec::new();
        let mut i: usize = 0;
        while i < self.llm_providers.len()
            invariant
                i <= self.llm_providers.len(),
                es == provider_entries(self.llm_providers@),
                distinct_keys(es),
                v.len() == i,
                forall|j: int| 0 <= j < i ==> provider_entries(v@)[j].0 == es[j].0,
            decreases self.llm_providers.len() - i,
        {
            let e = (self.llm_providers[i].0.clone(), self.llm_providers[i].1.clone());
            v.push(e);
            i = i + 1;
        }
        proof {
            let vs = provider_entries(v@);
            assert forall|a: int, b: int| 0 <= a < b < vs.len() implies vs[a].0 != vs[b].0 by {
                assert(vs[a].0 == es[a].0);
                assert(vs[b].0 == es[b].0);
            }
            assert(distinct_keys(vs));
            assert forall|k: Seq<char>| table_of(vs).contains_key(k) == table_of(es).contains_key(k) by {
                lemma_table_lookup(vs, k);
                lemma_table_lookup(es, k);
                if exists|j: int| 0 <= j < vs.len() && vs[j].0 == k {
                    let j = choose|j: int| 0 <= j < vs.len() && vs[j].0 == k;
                    assert(es[j].0 == k);
                }
                if exists|j: int| 0 <= j < es.len() && es[j].0 == k {
                    let j = choose|j: int| 0 <= j < es.len() && es[j].0 == k;
                    assert(vs[j].0 == k);
                }
            }
            assert(table_of(vs).dom() =~= table_of(es).dom());
        }
        ProviderRegistry { llm_providers: v }
    }
}

impl<P> Default for ProviderRegistry<P> {
    fn default() -> (r: Self)
        ensures
            r@ == Map::<Seq<char>, P>::empty(),
    {
        ProviderRegistry::new()
    }
}

/// Inserts `name` into the strictly sorted `names`, where it is not yet.
fn insert_sorted(names: &mut Vec<String>, name: String)
    requires
        strictly_sorted(strings(old(names)@)),
        !strings(old(names)@).contains(name@),
    ensures
        strictly_sorted(strings(final(names)@)),
        strings(final(names)@).len() == strings(old(names)@).len() + 1,
        forall|x: Seq<char>|
            strings(final(names)@).contains(x) <==> (strings(old(names)@).contains(x) || x == name@),
{
    let ghost old_s = strings(names@);
    let nc = chars_of(name.as_str());
    let mut p: usize = 0;
    while p < names.len() && lex_less(&chars_of(names[p].as_str()), &nc)
        invariant
            p <= names.len(),
            names@ == old(names)@,
            old_s == strings(names@),
            nc@ == name@,
            forall|j: int| 0 <= j < p ==> lex_lt(old_s[j], name@),
        decreases names.len() - p,
    {
        p = p + 1;
    }
    proof {
        if p < names.len() {
            assert(!lex_lt(old_s[p as int], name@));
            assert(old_s[p as int] != name@);
            lemma_lex_total(old_s[p as int], name@);
        }
    }
    let ghost nv = name@;
    names.insert(p, name);
    proof {
        let ns = strings(names@);
        assert(ns =~= old_s.insert(p as int, nv));
        assert forall|i: int, j: int| 0 <= i < j < ns.len() implies lex_lt(ns[i], ns[j]) by {
            if j < p {
            } else if j == p {
            } else if i < p {
                assert(lex_lt(ns[i], nv));
                if j - 1 > p {
                    assert(lex_lt(old_s[p as int], old_s[j - 1]));
                    lemma_lex_trans(nv, old_s[p as int], old_s[j - 1]);
                }
                lemma_lex_trans(ns[i], nv, ns[j]);
            } else if i == p {
                if j - 1 > p {
                    assert(lex_lt(old_s[p as int], old_s[j - 1]));
                    lemma_lex_trans(nv, old_s[p as int], old_s[j - 1]);
                }
            } else {
            }
        }
        assert forall|x: Seq<char>| ns.contains(x) <==> (old_s.contains(x) || x == nv) by {
            if ns.contains(x) {
                let k = choose|k: int| 0 <= k < ns.len() && ns[k] == x;
                if k < p {
                    assert(old_s[k] == x);
                } else if k > p {
                    assert(old_s[k - 1] == x);
                }
            }
            if old_s.contains(x) {
                let k = choose|k: int| 0 <= k < old_s.len() && old_s[k] == x;
                if k < p {
                    assert(ns[k] == x);
                } else {
                    assert(ns[k + 1] == x);
                }
            }
            if x == nv {
                assert(ns[p as int] == x);
            }
        }
    }
}

// ---------------------------------------------------------------------------
// Server-sent events
// ---------------------------------------------------------------------------

/// A line without one trailing carriage return.
pub open spec fn strip_cr(l: Seq<char>) -> Seq<char> {
    if l.len() > 0 && l.last() == '\r' {
        l.drop_last()
    } else {
        l
    }
}

/// Line scan: having read `s[..i]`, with `cur` the current line and `acc`
/// the finished lines.
pub open spec fn lines_from(s: Seq<char>, i: int, cur: Seq<char>, acc: Seq<Seq<char>>) -> Seq<
    Seq<char>,
>
    decreases s.len() - i,
{
    if i >= s.len() {
        if cur.len() > 0 {
            acc.push(cur)
        } else {
            acc
        }
    } else if s[i] == '\n' {
        lines_from(s, i + 1, Seq::empty(), acc.push(strip_cr(cur)))
    } else {
        lines_from(s, i + 1, cur.push(s[i]), acc)
    }
}

/// The lines of a text (`str::lines`): split at `\n`, a line ended by
/// `\n` loses one trailing `\r`, and a final empty line is not a line.
pub open spec fn text_lines(s: Seq<char>) -> Seq<Seq<char>> {
    lines_from(s, 0, Seq::empty(), Seq::empty())
}

/// The payloads of the `data:` lines of an event, each without the prefix
/// and its leading whitespace.
pub open spec fn data_lines(ls: Seq<Seq<char>>) -> Seq<Seq<char>>
    decreases ls.len(),
{
    if ls.len() == 0 {
        Seq::empty()
    } else {
        let prev = data_lines(ls.drop_last());
        let l = ls.last();
        if l.len() >= 5 && l.take(5) == "data:"@ {
            prev.push(trim_start(l.skip(5)))
        } else {
            prev
        }
    }
}

/// The data of an event: its data lines joined by newlines, if it has any.
pub open spec fn event_data(event: Seq<char>) -> Option<Seq<char>> {
    let d = data_lines(text_lines(event));
    if d.len() == 0 {
        None
    } else {
        Some(crate::text::join(d, seq!['\n']))
    }
}

fn split_lines(s: &Vec<char>) -> (r: Vec<Vec<char>>)
    ensures
        crate::text::words(r@) == text_lines(s@),
{
    let mut acc: Vec<Vec<char>> = Vec::new();
    let mut cur: Vec<char> = Vec::new();
    let mut i: usize = 0;
    proof {
        assert(crate::text::words(acc@) =~= Seq::<Seq<char>>::empty());
    }
    while i < s.len()
        invariant
            i <= s.len(),
            lines_from(s@, i as int, cur@, crate::text::words(acc@)) == text_lines(s@),
        decreases s.len() - i,
    {
        if s[i] == '\n' {
            let mut line = cur;
            if line.len() > 0 && line[line.len() - 1] == '\r' {
                let ghost l0 = line@;
                line.pop();
                proof {
                    assert(line@ =~= l0.drop_last());
                }
            }
            let ghost before = crate::text::words(acc@);
            let ghost lv = line@;
            acc.push(line);
            cur = Vec::new();
            proof {
                assert(crate::text::words(acc@) =~= before.push(lv));
                assert(cur@ =~= Seq::<char>::empty());
            }
        } else {
            cur.push(s[i]);
        }
        i = i + 1;
    }
    if cur.len() > 0 {
        let ghost before = crate::text::words(acc@);
        let ghost cv = cur@;
        acc.push(cur);
        proof {
            assert(crate::text::words(acc@) =~= before.push(cv));
        }
    }
    acc
}

fn starts_with_data_prefix(l: &Vec<char>) -> (r: bool)
    ensures
        r == (l@.len() >= 5 && l@.take(5) == "data:"@),
{
    let p = chars_of("data:");
    if l.len() < 5 {
        return false;
    }
    let mut head: Vec<char> = Vec::new();
    let mut i: usize = 0;
    while i < 5
        invariant
            i <= 5 <= l.len(),
            head@ == l@.take(i as int),
        decreases 5 - i,
    {
        head.push(l[i]);
        i = i + 1;
        proof {
            assert(head@ =~= l@.take(i as int));
        }
    }
    chars_eq(&head, &p)
}

fn trim_start_after(l: &Vec<char>, k: usize) -> (r: Vec<char>)
    requires
        k <= l.len(),
    ensures
        r@ == trim_start(l@.skip(k as int)),
{
    let mut i: usize = k;
    while i < l.len() && crate::text::is_whitespace(l[i])
        invariant
            k <= i <= l.len(),
            trim_start(l@.skip(k as int)) == trim_start(l@.skip(i as int)),
        decreases l.len() - i,
    {
        proof {
            assert(l@.skip(i as int).drop_first() =~= l@.skip(i + 1));
        }
        i = i + 1;
    }
    let mut r: Vec<char> = Vec::new();
    let mut j: usize = i;
    while j < l.len()
        invariant
            i <= j <= l.len(),
            r@ == l@.subrange(i as int, j as int),
        decreases l.len() - j,
    {
        r.push(l[j]);
        j = j + 1;
        proof {
            assert(r@ =~= l@.subrange(i as int, j as int));
        }
    }
    proof {
        assert(r@ =~= l@.skip(i as int));
    }
    r
}

fn event_data_chars(event: &Vec<char>) -> (r: Option<Vec<char>>)
    ensures
        match r {
            Some(d) => event_data(event@) == Some(d@),
            None => event_data(event@) is None,
        },
{
    let ls = split_lines(event);
    let ghost lv = crate::text::words(ls@);
    let mut data: Vec<Vec<char>> = Vec::new();
    let mut i: usize = 0;
    proof {
        assert(crate::text::words(data@) =~= data_lines(lv.take(0)));
    }
    while i < ls.len()
        invariant
            i <= ls.len(),
            lv == crate::text::words(ls@),
            crate::text::words(data@) == data_lines(lv.take(i as int)),
        decreases ls.len() - i,
    {
        proof {
            assert(lv.take(i + 1).drop_last() =~= lv.take(i as int));
            assert(lv.take(i + 1).last() == ls@[i as int]@);
        }
        if starts_with_data_prefix(&ls[i]) {
            let d = trim_start_after(&ls[i], 5);
            let ghost before = crate::text::words(data@);
            let ghost dv = d@;
            data.push(d);
            proof {
                assert(crate::text::words(data@) =~= before.push(dv));
            }
        }
        i = i + 1;
    }
    proof {
        assert(lv.take(ls.len() as int) =~= lv);
    }
    if data.len() == 0 {
        None
    } else {
        let mut nl: Vec<char> = Vec::new();
        nl.push('\n');
        proof {
            assert(nl@ =~= seq!['\n']);
        }
        Some(crate::text::join_chars(&data, &nl))
    }
}

/// The data of a server-sent event: its `data:` lines, without the prefix
/// and leading whitespace, joined by newlines; none when it has no such
/// line.
pub fn parse_sse_data(event: &str) -> (r: Option<String>)
    ensures
        match r {
            Some(d) => event_data(event@) == Some(d@),
            None => event_data(event@) is None,
        },
{
    let e = chars_of(event);
    match event_data_chars(&e) {
        Some(d) => Some(string_of(&d)),
        None => None,
    }
}

/// The position of the first blank line separator `\n\n` at or after `i`,
/// or -1.
pub open spec fn first_blank(s: Seq<char>, i: int) -> int
    decreases s.len() - i,
{
    if i < 0 || i + 1 >= s.len() {
        -1
    } else if s[i] == '\n' && s[i + 1] == '\n' {
        i
    } else {
        first_blank(s, i + 1)
    }
}

pub proof fn lemma_first_blank_range(s: Seq<char>, i: int)
    ensures
        first_blank(s, i) == -1 || (i <= first_blank(s, i) && first_blank(s, i) + 1 < s.len()),
    decreases s.len() - i,
{
    if i >= 0 && i + 1 < s.len() && !(s[i] == '\n' && s[i + 1] == '\n') {
        lemma_first_blank_range(s, i + 1);
    }
}

/// The complete events of `s` from position `start` on, each ended by a
/// blank line, and the incomplete rest.
pub open spec fn events_from(s: Seq<char>, start: int) -> (Seq<Seq<char>>, Seq<char>)
    decreases s.len() - start,
{
    if start < 0 || start > s.len() {
        (Seq::empty(), Seq::empty())
    } else {
        let k = first_blank(s, start);
        if k < 0 {
            (Seq::empty(), s.skip(start))
        } else {
            proof {
                lemma_first_blank_range(s, start);
            }
            let rest = events_from(s, k + 2);
            (seq![s.subrange(start, k)] + rest.0, rest.1)
        }
    }
}

/// The items of the complete events, in order: the data of each event
/// that has some, up to a `[DONE]` data, which ends the stream (`None`); the
/// flag tells whether it was reached.
pub open spec fn stream_items(events: Seq<Seq<char>>) -> (Seq<Option<Seq<char>>>, bool)
    decreases events.len(),
{
    if events.len() == 0 {
        (Seq::empty(), false)
    } else {
        let (prev, done) = stream_items(events.drop_last());
        if done {
            (prev, true)
        } else {
            match event_data(events.last()) {
                None => (prev, false),
                Some(d) => if d == "[DONE]"@ {
                    (prev.push(None), true)
                } else {
                    (prev.push(Some(d)), false)
                },
            }
        }
    }
}

/// An item of a server-sent event stream.
#[derive(Debug)]
pub enum SseItem {
    /// The data of an event.
    Data(String),
    /// The end-of-stream marker `[DONE]`.
    Done,
}

/// The data of items, `None` standing for the end marker.
pub open spec fn item_views(items: Seq<SseItem>) -> Seq<Option<Seq<char>>> {
    items.map_values(
        |i: SseItem|
            match i {
                SseItem::Data(d) => Some(d@),
                SseItem::Done => None,
            },
    )
}

/// Name for what `String::from_utf8_lossy` returns: the bytes decoded as
/// UTF-8, each invalid sequence replaced by U+FFFD.
pub uninterp spec fn utf8_lossy(bytes: Seq<u8>) -> Seq<char>;

/// `String::from_utf8_lossy`; its result is named `utf8_lossy`.
#[verifier::external_body]
fn decode_utf8_lossy(bytes: &[u8]) -> (r: String)
    ensures
        r@ == utf8_lossy(bytes@),
{
    String::from_utf8_lossy(bytes).into_owned()
}

/// Decodes a server-sent event stream chunk by chunk.
#[derive(Debug)]
pub struct SseDecoder {
    buffer: Vec<char>,
}

impl SseDecoder {
    /// The text received and not yet part of a complete event.
    pub closed spec fn pending(&self) -> Seq<char> {
        self.buffer@
    }

    /// A decoder with nothing pending.
    pub fn new() -> (r: Self)
        ensures
            r.pending() == Seq::<char>::empty(),
    {
        SseDecoder { buffer: Vec::new() }
    }

    /// Takes in the next piece of text: the complete events of what is
    /// pending followed by it give the returned items, and their
    /// incomplete rest stays pending.
    pub fn feed(&mut self, text: &str) -> (r: Vec<SseItem>)
        ensures
            item_views(r@) == stream_items(events_from(old(self).pending() + text@, 0).0).0,
            final(self).pending() == events_from(old(self).pending() + text@, 0).1,
    {
        let t = chars_of(text);
        crate::text::append_chars(&mut self.buffer, &t);
        let s = &self.buffer;
        let ghost sv = s@;
        let mut events: Vec<Vec<char>> = Vec::new();
        let mut start: usize = 0;
        let mut i: usize = 0;
        proof {
            assert(crate::text::words(events@) =~= Seq::<Seq<char>>::empty());
            assert(events_from(sv, 0).0 =~= crate::text::words(events@) + events_from(sv, 0).0);
        }
        while s.len() > 1 && i < s.len() - 1
            invariant
                s@ == sv,
                start <= i <= s.len(),
                events_from(sv, 0).0 == crate::text::words(events@) + events_from(sv, start as int).0,
                events_from(sv, 0).1 == events_from(sv, start as int).1,
                first_blank(sv, start as int) == first_blank(sv, i as int),
            decreases s.len() - i,
        {
            if s[i] == '\n' && s[i + 1] == '\n' {
                let mut ev: Vec<char> = Vec::new();
                let mut j: usize = start;
                while j < i
                    invariant
                        s@ == sv,
                        start <= j <= i < s.len(),
                        ev@ == sv.subrange(start as int, j as int),
                    decreases i - j,
                {
                    ev.push(s[j]);
                    j = j + 1;
                    proof {
                        assert(ev@ =~= sv.subrange(start as int, j as int));
                    }
                }
                proof {
                    lemma_first_blank_range(sv, start as int);
                    let ghost before = crate::text::words(events@);
                    assert(events_from(sv, start as int).0 =~= seq![sv.subrange(start as int, i as int)]
                        + events_from(sv, i + 2).0);
                }
                let ghost before = crate::text::words(events@);
                let ghost evv = ev@;
                events.push(ev);
                proof {
                    assert(crate::text::words(events@) =~= before.push(evv));
                    assert(crate::text::words(events@) + events_from(sv, i + 2).0 =~= before + (seq![evv]
                        + events_from(sv, i + 2).0));
                }
                start = i + 2;
                i = i + 2;
            } else {
                i = i + 1;
            }
        }
        proof {
            assert(first_blank(sv, i as int) == -1);
            assert(events_from(sv, start as int).0 =~= Seq::<Seq<char>>::empty());
            assert(crate::text::words(events@) + Seq::<Seq<char>>::empty() =~= crate::text::words(events@));
        }
        let mut rest: Vec<char> = Vec::new();
        let mut j: usize = start;
        while j < s.len()
            invariant
                s@ == sv,
                start <= j <= s.len(),
                rest@ == sv.subrange(start as int, j as int),
            decreases s.len() - j,
        {
            rest.push(s[j]);
            j = j + 1;
            proof {
                assert(rest@ =~= sv.subrange(start as int, j as int));
            }
        }
        proof {
            assert(rest@ =~= sv.skip(start as int));
        }
        let ghost ev_all = crate::text::words(events@);
        let mut items: Vec<SseItem> = Vec::new();
        let mut k: usize = 0;
        let mut done = false;
        proof {
            assert(item_views(items@) =~= Seq::<Option<Seq<char>>>::empty());
        }
        while k < events.len() && !done
            invariant
                k <= events.len(),
                ev_all == crate::text::words(events@),
                (item_views(items@), done) == stream_items(ev_all.take(k as int)),
            decreases events.len() - k,
        {
            proof {
                assert(ev_all.take(k + 1).drop_last() =~= ev_all.take(k as int));
                assert(ev_all.take(k + 1).last() == events@[k as int]@);
            }
            let ghost before = item_views(items@);
            match event_data_chars(&events[k]) {
                Some(d) => {
                    if crate::text::chars_eq_str(&d, "[DONE]") {
                        items.push(SseItem::Done);
                        done = true;
                        proof {
                            assert(item_views(items@) =~= before.push(None));
                        }
                    } else {
                        let dv = string_of(&d);
                        let ghost dd = dv@;
                        items.push(SseItem::Data(dv));
                        proof {
                            assert(item_views(items@) =~= before.push(Some(dd)));
                        }
                    }
                },
                None => {},
            }
            k = k + 1;
        }
        proof {
            if done {
                lemma_stream_items_done(ev_all, k as int);
            } else {
                assert(ev_all.take(k as int) =~= ev_all);
            }
        }
        self.buffer = rest;
        items
    }

    /// Takes in the next bytes, decoded as UTF-8 with invalid sequences
    /// replaced.
    pub fn feed_bytes(&mut self, bytes: &[u8]) -> (r: Vec<SseItem>)
        ensures
            item_views(r@) == stream_items(
                events_from(old(self).pending() + utf8_lossy(bytes@), 0).0,
            ).0,
            final(self).pending() == events_from(old(self).pending() + utf8_lossy(bytes@), 0).1,
    {
        let text = decode_utf8_lossy(bytes);
        self.feed(text.as_str())
    }

    /// At the end of the stream: an error when an incomplete event is
    /// pending (pending text other than whitespace).
    pub fn finish(&self) -> (r: Result<(), ProviderError>)
        ensures
            trim(self.pending()).len() == 0 ==> r is Ok,
            trim(self.pending()).len() > 0 ==> (r matches Err(ProviderError::Stream(m)) && m@
                == "stream ended with an incomplete SSE event"@),
    {
        let t = trim_chars(&self.buffer);
        if t.len() == 0 {
            Ok(())
        } else {
            Err(ProviderError::Stream("stream ended with an incomplete SSE event".to_owned()))
        }
    }
}

proof fn lemma_stream_items_done(events: Seq<Seq<char>>, k: int)
    requires
        0 <= k <= events.len(),
        stream_items(events.take(k)).1,
    ensures
        stream_items(events) == stream_items(events.take(k)),
    decreases events.len() - k,
{
    if k < events.len() {
        assert(events.drop_last().take(k) =~= events.take(k));
        lemma_stream_items_done(events.drop_last(), k);
    } else {
        assert(events.take(k) =~= events);
    }
}

proof fn lemma_first_blank_extend(s: Seq<char>, t: Seq<char>, i: int)
    requires
        0 <= i,
        first_blank(s, i) >= 0,
    ensures
        first_blank(s + t, i) == first_blank(s, i),
    decreases s.len() - i,
{
    lemma_first_blank_range(s, i);
    let u = s + t;
    assert(u[i] == s[i] && u[i + 1] == s[i + 1]);
    if !(s[i] == '\n' && s[i + 1] == '\n') {
        lemma_first_blank_extend(s, t, i + 1);
    }
}

proof fn lemma_first_blank_shift(x: Seq<char>, p: int, q: int)
    requires
        0 <= p <= x.len(),
        0 <= q,
    ensures
        first_blank(x, p + q) == if first_blank(x.skip(p), q) < 0 {
            -1
        } else {
            first_blank(x.skip(p), q) + p
        },
    decreases x.len() - (p + q),
{
    let y = x.skip(p);
    if p + q + 1 < x.len() {
        assert(y[q] == x[p + q] && y[q + 1] == x[p + q + 1]);
        if !(x[p + q] == '\n' && x[p + q + 1] == '\n') {
            lemma_first_blank_shift(x, p, q + 1);
        }
    }
}

proof fn lemma_events_shift(x: Seq<char>, p: int, q: int)
    requires
        0 <= p <= x.len(),
        0 <= q <= x.len() - p,
    ensures
        events_from(x, p + q) == events_from(x.skip(p), q),
    decreases x.len() - (p + q),
{
    let y = x.skip(p);
    lemma_first_blank_shift(x, p, q);
    lemma_first_blank_range(x, p + q);
    lemma_first_blank_range(y, q);
    let k = first_blank(y, q);
    if k >= 0 {
        lemma_events_shift(x, p, k + 2);
        assert(x.subrange(p + q, k + p) =~= y.subrange(q, k));
    } else {
        assert(x.skip(p + q) =~= y.skip(q));
    }
}

proof fn lemma_events_split(s: Seq<char>, t: Seq<char>, start: int)
    requires
        0 <= start <= s.len(),
    ensures
        events_from(s + t, start) == (
            events_from(s, start).0 + events_from(events_from(s, start).1 + t, 0).0,
            events_from(events_from(s, start).1 + t, 0).1,
        ),
    decreases s.len() - start,
{
    let u = s + t;
    let k = first_blank(s, start);
    lemma_first_blank_range(s, start);
    if k >= 0 {
        lemma_first_blank_extend(s, t, start);
        lemma_events_split(s, t, k + 2);
        assert(u.subrange(start, k) =~= s.subrange(start, k));
        let rest = events_from(s, k + 2);
        let tail = events_from(rest.1 + t, 0);
        assert(seq![s.subrange(start, k)] + (rest.0 + tail.0) =~= (seq![s.subrange(start, k)]
            + rest.0) + tail.0);
    } else {
        lemma_events_shift(u, start, 0);
        assert(u.skip(start) =~= s.skip(start) + t);
        assert(Seq::<Seq<char>>::empty() + events_from(s.skip(start) + t, 0).0 =~= events_from(
            s.skip(start) + t,
            0,
        ).0);
    }
}

proof fn lemma_stream_items_concat(a: Seq<Seq<char>>, b: Seq<Seq<char>>)
    requires
        !stream_items(a).1,
    ensures
        stream_items(a + b).0 == stream_items(a).0 + stream_items(b).0,
        stream_items(a + b).1 == stream_items(b).1,
    decreases b.len(),
{
    if b.len() == 0 {
        assert(a + b =~= a);
        assert(stream_items(a).0 + Seq::<Option<Seq<char>>>::empty() =~= stream_items(a).0);
    } else {
        assert((a + b).drop_last() =~= a + b.drop_last());
        lemma_stream_items_concat(a, b.drop_last());
        let prev = stream_items(b.drop_last()).0;
        assert((stream_items(a).0 + prev).push(None) =~= stream_items(a).0 + prev.push(None));
        if let Some(d) = event_data(b.last()) {
            assert((stream_items(a).0 + prev).push(Some(d)) =~= stream_items(a).0 + prev.push(
                Some(d),
            ));
        }
    }
}

/// Chunk boundaries do not matter: feeding `a` and then `b` to a decoder
/// with `pending` text gives the items that feeding `a + b` at once gives,
/// in order, and leaves the same text pending, as long as the first piece
/// did not end the stream.
pub proof fn law_sse_chunk_boundaries(pending: Seq<char>, a: Seq<char>, b: Seq<char>)
    requires
        !stream_items(events_from(pending + a, 0).0).1,
    ensures
        stream_items(events_from(pending + a, 0).0).0 + stream_items(
            events_from(events_from(pending + a, 0).1 + b, 0).0,
        ).0 == stream_items(events_from(pending + a + b, 0).0).0,
        events_from(events_from(pending + a, 0).1 + b, 0).1 == events_from(pending + a + b, 0).1,
{
    lemma_events_split(pending + a, b, 0);
    lemma_stream_items_concat(
        events_from(pending + a, 0).0,
        events_from(events_from(pending + a, 0).1 + b, 0).0,
    );
}

// ---------------------------------------------------------------------------
// OpenAI wire format
// ---------------------------------------------------------------------------

/// A tool call as OpenAI writes it.
#[derive(Debug, Clone)]
pub struct OpenAIToolCall {
    pub id: String,
    pub tool_type: String,
    pub function: FunctionCall,
}

/// A message as OpenAI writes it.
#[derive(Debug, Clone)]
pub struct OpenAIMessage {
    pub role: ChatRole,
    pub content: Option<String>,
    pub name: Option<String>,
    pub tool_call_id: Option<String>,
    pub tool_calls: Vec<OpenAIToolCall>,
}

/// One choice of an OpenAI completion.
#[derive(Debug)]
pub struct OpenAIChoice {
    pub message: OpenAIMessage,
    pub finish_reason: Option<String>,
}

/// An OpenAI chat completion.
#[derive(Debug)]
pub struct OpenAIChatResponse {
    pub id: String,
    pub model: String,
    pub choices: Vec<OpenAIChoice>,
    pub usage: Option<TokenUsage>,
}

/// A partial tool call as OpenAI streams it.
#[derive(Debug)]
pub struct OpenAIToolCallDelta {
    pub index: u32,
    pub id: Option<String>,
    pub function: Option<FunctionCallDelta>,
}

/// The increment of a streamed OpenAI choice.
#[derive(Debug, Default)]
pub struct OpenAIStreamDelta {
    pub role: Option<ChatRole>,
    pub content: Option<String>,
    pub tool_calls: Vec<OpenAIToolCallDelta>,
}

/// One choice of a streamed OpenAI chunk.
#[derive(Debug)]
pub struct OpenAIStreamChoice {
    pub delta: OpenAIStreamDelta,
    pub finish_reason: Option<String>,
}

/// A streamed OpenAI chunk.
#[derive(Debug)]
pub struct OpenAIStreamResponse {
    pub id: String,
    pub model: String,
    pub choices: Vec<OpenAIStreamChoice>,
    pub usage: Option<TokenUsage>,
}

/// A tool call as the library holds it, from the wire form.
pub open spec fn tool_call_of(t: OpenAIToolCall) -> ToolCall {
    ToolCall { id: t.id, function: t.function }
}

/// The wire form of a tool call: of type `function`.
pub open spec fn wire_tool_call_matches(w: OpenAIToolCall, t: ToolCall) -> bool {
    w.id == t.id && w.function == t.function && w.tool_type@ == "function"@
}

/// A chat message as the library holds it, from the wire form.
pub open spec fn chat_message_of(m: OpenAIMessage, c: ChatMessage) -> bool {
    &&& c.role == m.role
    &&& c.content == m.content
    &&& c.name == m.name
    &&& c.tool_call_id == m.tool_call_id
    &&& c.tool_calls@ == m.tool_calls@.map_values(|t: OpenAIToolCall| tool_call_of(t))
}

/// A partial tool call as the library holds it, from the wire form.
pub open spec fn tool_call_delta_of(d: OpenAIToolCallDelta) -> ToolCallDelta {
    ToolCallDelta { index: d.index, id: d.id, function: d.function }
}

/// A chunk increment as the library holds it, from the wire form.
pub open spec fn delta_of(d: OpenAIStreamDelta, c: ChatDelta) -> bool {
    &&& c.role == d.role
    &&& c.content == d.content
    &&& c.tool_calls@ == d.tool_calls@.map_values(|t: OpenAIToolCallDelta| tool_call_delta_of(t))
}

impl ChatMessage {
    /// The library form of a message received from OpenAI.
    pub fn from_openai(message: OpenAIMessage) -> (r: Self)
        ensures
            chat_message_of(message, r),
    {
        let ghost calls = message.tool_calls@;
        let mut wire = message.tool_calls;
        let mut calls_out: Vec<ToolCall> = Vec::new();
        let mut i: usize = 0;
        assert(wire@.len() == wire.len());
        while wire.len() > 0
            invariant
                i + wire.len() == calls.len(),
                calls.len() <= usize::MAX,
                wire@ == calls.skip(i as int),
                calls_out@ == calls.take(i as int).map_values(|t: OpenAIToolCall| tool_call_of(t)),
            decreases wire.len(),
        {
            let t = wire.remove(0);
            proof {
                assert(t == calls[i as int]);
            }
            calls_out.push(ToolCall { id: t.id, function: t.function });
            proof {
                assert(calls.skip(i as int).drop_first() =~= calls.skip(i + 1));
                assert(calls_out@ =~= calls.take(i + 1).map_values(|t: OpenAIToolCall| tool_call_of(t)));
            }
            i = i + 1;
        }
        proof {
            assert(calls.take(i as int) =~= calls);
        }
        ChatMessage {
            role: message.role,
            content: message.content,
            name: message.name,
            tool_call_id: message.tool_call_id,
            tool_calls: calls_out,
        }
    }
}

impl OpenAIMessage {
    /// The wire form of a message sent to OpenAI; tool calls are of type
    /// `function`.
    pub fn from_chat_message(message: ChatMessage) -> (r: Self)
        ensures
            r.role == message.role,
            r.content == message.content,
            r.name == message.name,
            r.tool_call_id == message.tool_call_id,
            r.tool_calls.len() == message.tool_calls.len(),
            forall|i: int|
                0 <= i < r.tool_calls.len() ==> wire_tool_call_matches(
                    #[trigger] r.tool_calls@[i],
                    message.tool_calls@[i],
                ),
    {
        let ghost calls = message.tool_calls@;
        let mut lib = message.tool_calls;
        let mut out: Vec<OpenAIToolCall> = Vec::new();
        let mut i: usize = 0;
        assert(lib@.len() == lib.len());
        while lib.len() > 0
            invariant
                i + lib.len() == calls.len(),
                calls.len() <= usize::MAX,
                lib@ == calls.skip(i as int),
                out.len() == i,
                forall|j: int| 0 <= j < i ==> wire_tool_call_matches(#[trigger] out@[j], calls[j]),
            decreases lib.len(),
        {
            let t = lib.remove(0);
            proof {
                assert(t == calls[i as int]);
                assert(calls.skip(i as int).drop_first() =~= calls.skip(i + 1));
            }
            out.push(OpenAIToolCall { id: t.id, tool_type: "function".to_owned(), function: t.function });
            i = i + 1;
        }
        OpenAIMessage {
            role: message.role,
            content: message.content,
            name: message.name,
            tool_call_id: message.tool_call_id,
            tool_calls: out,
        }
    }
}

impl ChatDelta {
    /// The library form of a streamed OpenAI increment.
    pub fn from_openai(delta: OpenAIStreamDelta) -> (r: Self)
        ensures
            delta_of(delta, r),
    {
        let ghost calls = delta.tool_calls@;
        let mut wire = delta.tool_calls;
        let mut out: Vec<ToolCallDelta> = Vec::new();
        let mut i: usize = 0;
        assert(wire@.len() == wire.len());
        while wire.len() > 0
            invariant
                i + wire.len() == calls.len(),
                calls.len() <= usize::MAX,
                wire@ == calls.skip(i as int),
                out@ == calls.take(i as int).map_values(|t: OpenAIToolCallDelta| tool_call_delta_of(t)),
            decreases wire.len(),
        {
            let t = wire.remove(0);
            proof {
                assert(t == calls[i as int]);
            }
            out.push(ToolCallDelta { index: t.index, id: t.id, function: t.function });
            proof {
                assert(calls.skip(i as int).drop_first() =~= calls.skip(i + 1));
                assert(out@ =~= calls.take(i + 1).map_values(|t: OpenAIToolCallDelta| tool_call_delta_of(t)));
            }
            i = i + 1;
        }
        proof {
            assert(calls.take(i as int) =~= calls);
        }
        ChatDelta { role: delta.role, content: delta.content, tool_calls: out }
    }
}

impl OpenAIChatResponse {
    /// The chat response of a completion: its first choice, with the
    /// completion's id, model and usage; a decode error when it has no
    /// choice.
    pub fn try_into_chat_response(self) -> (r: Result<ChatResponse, ProviderError>)
        ensures
            self.choices.len() == 0 ==> (r matches Err(ProviderError::Decode(m)) && m@
                == "OpenAI response did not include any choices"@),
            self.choices.len() > 0 ==> (r matches Ok(resp) && resp.id == self.id && resp.model
                == self.model && chat_message_of(self.choices@[0].message, resp.message)
                && resp.finish_reason == self.choices@[0].finish_reason && resp.usage
                == self.usage),
    {
        let mut choices = self.choices;
        if choices.len() == 0 {
            return Err(ProviderError::Decode("OpenAI response did not include any choices".to_owned()));
        }
        let choice = choices.remove(0);
        Ok(ChatResponse {
            id: self.id,
            model: self.model,
            message: ChatMessage::from_openai(choice.message),
            finish_reason: choice.finish_reason,
            usage: self.usage,
        })
    }
}

/// `c` is the chunk of choice `ch` of a streamed response with the given
/// id, model and usage.
pub open spec fn chunk_of(id: String, model: String, usage: Option<TokenUsage>, ch: OpenAIStreamChoice, c: ChatChunk) -> bool {
    &&& c.id@ == id@
    &&& c.model@ == model@
    &&& delta_of(ch.delta, c.delta)
    &&& c.finish_reason == ch.finish_reason
    &&& c.usage == usage
}

impl OpenAIStreamResponse {
    /// One chat chunk per choice, in order, each with the response's id,
    /// model and usage.
    pub fn into_chat_chunks(self) -> (r: Vec<ChatChunk>)
        ensures
            r.len() == self.choices.len(),
            forall|i: int|
                0 <= i < r.len() ==> chunk_of(
                    self.id,
                    self.model,
                    self.usage,
                    self.choices@[i],
                    #[trigger] r@[i],
                ),
    {
        let ghost chs = self.choices@;
        let mut choices = self.choices;
        let mut out: Vec<ChatChunk> = Vec::new();
        let mut i: usize = 0;
        assert(choices@.len() == choices.len());
        while choices.len() > 0
            invariant
                i + choices.len() == chs.len(),
                chs.len() <= usize::MAX,
                choices@ == chs.skip(i as int),
                out.len() == i,
                forall|j: int|
                    0 <= j < i ==> chunk_of(self.id, self.model, self.usage, chs[j], #[trigger] out@[j]),
            decreases choices.len(),
        {
            let ch = choices.remove(0);
            proof {
                assert(ch == chs[i as int]);
                assert(chs.skip(i as int).drop_first() =~= chs.skip(i + 1));
            }
            let ghost chv = ch;
            let delta = ChatDelta::from_openai(ch.delta);
            out.push(ChatChunk {
                id: self.id.clone(),
                model: self.model.clone(),
                delta,
                finish_reason: ch.finish_reason,
                usage: self.usage,
            });
            i = i + 1;
        }
        out
    }
}

} // verus!
