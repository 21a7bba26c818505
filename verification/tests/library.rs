use contextra::error::ContextraError;
use contextra::expansion::{
    default_expansions, ExpandedQuery, QueryExpander, StaticTermExpansionProvider,
    TermExpansionProvider,
};
use contextra::json::{JsonNumber, JsonValue, Metadata};
use contextra::memory::{
    message_token_cost, role_token_cost, ApproximateTokenCounter, ConversationId, ConversationSession, Message, Role,
    SlidingWindowTruncator, TokenCounter,
};
use contextra::providers::{
    chat_completions_url, is_retryable_request_error, is_retryable_status, map_status_error,
    next_retry_step, normalize_provider_name, openai_key_for, parse_sse_data,
    trim_trailing_slashes, capped_backoff_nanos, tool_choice_to_openai_value, ToolChoice, AttemptOutcome, ChatDelta, ChatMessage, ChatRole,
    FunctionCall, OpenAIChatResponse, OpenAIChoice, OpenAIMessage, OpenAIStreamChoice,
    OpenAIStreamDelta, OpenAIStreamResponse, OpenAIToolCall, ProviderError, ProviderRegistry,
    ProvidersSettings, RetryStep, SseDecoder, SseItem, TokenUsage,
};
use contextra::query::{
    detect_intent, extract_entities, looks_like_identifier, normalize_query_text, tokenize,
    CollectionRule, QueryAnalyzer, QueryEntityKind, QueryIntent,
};
use contextra::retrieval::{
    candidate_limit, default_limit, keyword_stats, payload_text, value_text, FilterOperator,
    MetadataCondition, RetrievalFilter, RetrievalMode, RetrievalRequest,
};

// ---------------------------------------------------------------------------
// Helpers
// ---------------------------------------------------------------------------

struct WordTokenCounter;

impl TokenCounter for WordTokenCounter {
    fn count_tokens(&self, text: &str) -> usize {
        text.split_whitespace().count()
    }

    fn count_message_tokens(&self, message: &Message) -> usize {
        self.count_tokens(&message.content)
    }
}

fn message(conversation_id: ConversationId, role: Role, content: &str) -> Message {
    Message::new(conversation_id, role, content.to_string(), Metadata::new())
}

fn order_key(value: f64) -> u64 {
    let value = if value == 0.0 { 0.0 } else { value };
    let bits = value.to_bits();
    if bits >> 63 == 1 {
        !bits
    } else {
        bits | (1u64 << 63)
    }
}

fn integer(n: i64) -> JsonValue {
    JsonValue::Number(JsonNumber {
        text: n.to_string(),
        integer: Some(n as i128),
        order_key: order_key(n as f64),
    })
}

fn float(x: f64) -> JsonValue {
    JsonValue::Number(JsonNumber { text: x.to_string(), integer: None, order_key: order_key(x) })
}

fn text(s: &str) -> JsonValue {
    JsonValue::String(s.to_string())
}

fn texts(items: &[&str]) -> JsonValue {
    JsonValue::Array(items.iter().map(|s| text(s)).collect())
}

fn metadata(entries: Vec<(&str, JsonValue)>) -> Metadata {
    let mut payload = Metadata::new();
    for (key, value) in entries {
        payload.insert(key.to_string(), value);
    }
    payload
}

fn sse_view(items: &[SseItem]) -> Vec<Option<String>> {
    items
        .iter()
        .map(|item| match item {
            SseItem::Data(d) => Some(d.clone()),
            SseItem::Done => None,
        })
        .collect()
}

// ---------------------------------------------------------------------------
// Scenarios of the project's own test suite
// ---------------------------------------------------------------------------

#[test]
fn sliding_window_truncates_old_messages_by_token_count() {
    let conversation_id = ConversationId::new();
    let messages = vec![
        message(conversation_id, Role::System, "system prompt remains"),
        message(conversation_id, Role::User, "one two three"),
        message(conversation_id, Role::Assistant, "four five six"),
        message(conversation_id, Role::User, "seven eight"),
        message(conversation_id, Role::Assistant, "nine ten"),
    ];
    let truncator = SlidingWindowTruncator::with_counter(7, WordTokenCounter);

    let window = truncator.truncate(&messages);

    assert_eq!(window.len(), 4);
    assert_eq!(window[0].role, Role::System);
    assert_eq!(window[1].content, "four five six");
    assert_eq!(window[2].content, "seven eight");
    assert_eq!(window[3].content, "nine ten");
    assert_eq!(truncator.token_count(&window[1..]), 7);
}

#[test]
fn provider_error_maps_into_context_error() {
    let context_error = ContextraError::from(ProviderError::RateLimited("slow down".to_string()));
    assert!(matches!(context_error, ContextraError::RateLimited(_)));

    let context_error = ContextraError::from(ProviderError::Authentication("bad key".to_string()));
    assert!(matches!(context_error, ContextraError::Unauthorized(_)));
}

#[test]
fn query_analyzer_normalizes_detects_entities_and_selects_collection() {
    let analyzer = QueryAnalyzer::new(&["general"])
        .with_collection_rule(CollectionRule::new("engineering", &["rust", "cargo", "bug"]));

    let analyzed = analyzer.analyze(r#"Fix Rust bug BUG-123 for "Login Flow" #auth"#);

    assert_eq!(analyzed.normalized, "fix rust bug bug 123 for login flow #auth");
    assert_eq!(analyzed.intent, QueryIntent::Command);
    assert_eq!(analyzed.selected_collections, vec!["engineering"]);
    assert!(analyzed.entities.iter().any(|entity| {
        entity.kind == QueryEntityKind::QuotedPhrase && entity.value == "Login Flow"
    }));
    assert!(analyzed
        .entities
        .iter()
        .any(|entity| { entity.kind == QueryEntityKind::Hashtag && entity.value == "auth" }));
    assert!(analyzed.entities.iter().any(|entity| {
        entity.kind == QueryEntityKind::Identifier && entity.value == "BUG-123"
    }));
}

#[test]
fn query_expander_combines_default_and_pluggable_terms() {
    let analyzer = QueryAnalyzer::default();
    let analyzed = analyzer.analyze("auth vector");
    let expander =
        QueryExpander::new().with_static_terms("auth", &["oauth", "identity"]).with_max_terms(8);

    let expanded = expander.expand(&analyzed);

    assert!(expanded.terms.contains(&"auth".to_string()));
    assert!(expanded.terms.contains(&"oauth".to_string()));
    assert!(expanded.terms.contains(&"identity".to_string()));
    assert!(expanded.terms.contains(&"embedding".to_string()));
}

#[test]
fn retrieval_filter_matches_metadata() {
    let filter = RetrievalFilter {
        collection: Some("docs".to_string()),
        user_id: Some("user-1".to_string()),
        organization_id: None,
        language: Some("en".to_string()),
        file_type: Some("md".to_string()),
        tags: vec!["rust".to_string()],
        permissions: vec!["read".to_string()],
        metadata: vec![MetadataCondition {
            field: "version".to_string(),
            operator: FilterOperator::GreaterThanOrEqual,
            value: integer(2),
        }],
    };

    let payload = metadata(vec![
        ("collection", text("docs")),
        ("user_id", text("user-1")),
        ("language", text("en")),
        ("file_type", text("md")),
        ("tags", texts(&["rust", "retrieval"])),
        ("permissions", texts(&["read", "write"])),
        ("version", integer(3)),
    ]);

    assert!(filter.matches(&payload));
}

#[test]
fn factory_and_registry_create_openai_from_settings() {
    let settings = ProvidersSettings {
        openai_api_key: Some("test-key".to_string()),
        anthropic_api_key: None,
    };

    let key = openai_key_for(&settings, "OpenAI").expect("openai is configured");
    assert_eq!(key, "test-key");

    let mut registry: ProviderRegistry<String> = ProviderRegistry::new();
    registry.register_llm("openai", key);
    assert!(registry.contains_llm("openai"));
    assert_eq!(registry.llm_names(), vec!["openai".to_string()]);
}

// ---------------------------------------------------------------------------
// Memory
// ---------------------------------------------------------------------------

#[test]
fn approximate_counter_counts_words_and_characters() {
    let counter = ApproximateTokenCounter;
    assert_eq!(counter.count_tokens(""), 0);
    assert_eq!(counter.count_tokens("hello"), 2);
    assert_eq!(counter.count_tokens("a b c"), 3);
    assert_eq!(counter.count_tokens("abcdefghijklmnop"), 4);
    assert_eq!(counter.approximate_count("          "), 3);
}

#[test]
fn message_cost_adds_role_overhead() {
    assert_eq!(role_token_cost(&Role::System), 4);
    assert_eq!(role_token_cost(&Role::User), 3);
    assert_eq!(role_token_cost(&Role::Assistant), 3);
    assert_eq!(role_token_cost(&Role::Tool), 5);
    let id = ConversationId::new();
    let m = message(id, Role::User, "hello");
    assert_eq!(ApproximateTokenCounter.count_message_tokens(&m), 5);
}

#[test]
fn window_without_system_preservation_keeps_latest_suffix() {
    let id = ConversationId::new();
    let messages = vec![
        message(id, Role::System, "rules here"),
        message(id, Role::User, "one two"),
        message(id, Role::Assistant, "three four"),
        message(id, Role::User, "five"),
    ];
    let truncator = SlidingWindowTruncator::with_counter(3, WordTokenCounter)
        .preserve_system_messages(false);
    let window = truncator.truncate(&messages);
    let contents: Vec<&str> = window.iter().map(|m| m.content.as_str()).collect();
    assert_eq!(contents, vec!["three four", "five"]);
}

#[test]
fn window_keeps_last_message_even_over_budget() {
    let id = ConversationId::new();
    let messages = vec![
        message(id, Role::User, "short"),
        message(id, Role::User, "a very long message indeed"),
    ];
    let truncator = SlidingWindowTruncator::with_counter(1, WordTokenCounter);
    let window = truncator.truncate(&messages);
    assert_eq!(window.len(), 1);
    assert_eq!(window[0].content, "a very long message indeed");
}

#[test]
fn window_with_explicit_costs() {
    let id = ConversationId::new();
    let messages = vec![
        message(id, Role::User, "a"),
        message(id, Role::System, "s"),
        message(id, Role::User, "b"),
        message(id, Role::User, "c"),
    ];
    let truncator = SlidingWindowTruncator::new(10);
    let window = truncator.truncate_with_costs(&messages, &[5, 100, 6, 4]);
    let contents: Vec<&str> = window.iter().map(|m| m.content.as_str()).collect();
    assert_eq!(contents, vec!["s", "b", "c"]);
    assert_eq!(truncator.max_tokens(), 10);
}

#[test]
fn truncator_budget_is_at_least_one() {
    assert_eq!(SlidingWindowTruncator::new(0).max_tokens(), 1);
    assert_eq!(SlidingWindowTruncator::<ApproximateTokenCounter>::default().max_tokens(), 4000);
}

#[test]
fn token_count_saturates() {
    struct Huge;
    impl TokenCounter for Huge {
        fn count_tokens(&self, _text: &str) -> usize {
            usize::MAX
        }
    }
    let id = ConversationId::new();
    let messages = vec![message(id, Role::User, "x"), message(id, Role::User, "y")];
    let truncator = SlidingWindowTruncator::with_counter(10, Huge);
    assert_eq!(truncator.token_count(&messages), usize::MAX);
}

#[test]
fn session_lifecycle_times() {
    let id = ConversationId::new();
    let mut session = ConversationSession::started_at(id, 3600, 1_000);
    assert_eq!(session.created_at_epoch_seconds, 1_000);
    assert_eq!(session.expires_at_epoch_seconds, 4_600);
    assert_eq!(session.message_count, 0);
    session.touched_at(3600, 2, 2_000);
    assert_eq!(session.created_at_epoch_seconds, 1_000);
    assert_eq!(session.last_active_epoch_seconds, 2_000);
    assert_eq!(session.expires_at_epoch_seconds, 5_600);
    assert_eq!(session.message_count, 2);
    let zero_ttl = ConversationSession::started_at(id, 0, 10);
    assert_eq!(zero_ttl.expires_at_epoch_seconds, 11);
    let late = ConversationSession::started_at(id, 10, u64::MAX - 3);
    assert_eq!(late.expires_at_epoch_seconds, u64::MAX);
}

#[test]
fn session_resume_keeps_existing_state() {
    let id = ConversationId::new();
    let stored = ConversationSession::started_at(id, 60, 5);
    let resumed = ConversationSession::resume_or_start(Some(stored), ConversationId::new(), 60);
    assert_eq!(resumed, stored);
    let fresh = ConversationSession::resume_or_start(None, id, 60);
    assert_eq!(fresh.conversation_id, id);
    assert_eq!(fresh.message_count, 0);
    assert_eq!(fresh.created_at_epoch_seconds, fresh.last_active_epoch_seconds);
    assert_eq!(fresh.expires_at_epoch_seconds, fresh.last_active_epoch_seconds + 60);
}

#[test]
fn conversation_ids_are_fresh() {
    assert_ne!(ConversationId::new(), ConversationId::new());
}

// ---------------------------------------------------------------------------
// Query analysis and expansion
// ---------------------------------------------------------------------------

#[test]
fn normalization_lowercases_and_collapses_punctuation() {
    assert_eq!(normalize_query_text("  Hello, World!!  How_are #you @me? "), "hello world how_are #you @me");
    assert_eq!(normalize_query_text("ÄÖÜ Straße"), "äöü straße");
    assert_eq!(normalize_query_text("..."), "");
}

#[test]
fn tokens_drop_stop_words_and_single_letters() {
    assert_eq!(tokenize("the rust book is a guide to x"), vec!["rust", "book", "guide"]);
    assert_eq!(tokenize("é ab"), vec!["é", "ab"]);
}

#[test]
fn intents_follow_first_word_and_content() {
    assert_eq!(detect_intent("compare a and b", "compare a and b"), QueryIntent::Comparison);
    assert_eq!(detect_intent("rust vs go", "rust vs go"), QueryIntent::Comparison);
    assert_eq!(detect_intent("summarize the doc", "summarize the doc"), QueryIntent::Summary);
    assert_eq!(detect_intent("write tests", "write tests"), QueryIntent::Command);
    assert_eq!(detect_intent("python loops", "python loops"), QueryIntent::Code);
    assert_eq!(detect_intent("is it raining?  ", "is it raining"), QueryIntent::Question);
    assert_eq!(detect_intent("why now", "why now"), QueryIntent::Question);
    assert_eq!(detect_intent("weather today", "weather today"), QueryIntent::Search);
}

#[test]
fn entities_of_every_kind() {
    let entities = extract_entities("Mail Bob.Smith@Example.com about .RS files, #Ops, X-1 and New York City");
    let pairs: Vec<(QueryEntityKind, &str)> =
        entities.iter().map(|e| (e.kind, e.value.as_str())).collect();
    assert!(pairs.contains(&(QueryEntityKind::Email, "bob.smith@example.com")));
    assert!(pairs.contains(&(QueryEntityKind::FileType, "rs")));
    assert!(pairs.contains(&(QueryEntityKind::Hashtag, "ops")));
    assert!(pairs.contains(&(QueryEntityKind::Identifier, "X-1")));
    assert!(pairs.contains(&(QueryEntityKind::ProperNoun, "New York City")));
    assert!(looks_like_identifier(&"abc123".chars().collect::<Vec<char>>()));
    assert!(!looks_like_identifier(&"abc".chars().collect::<Vec<char>>()));
}

#[test]
fn analyzer_falls_back_to_default_collections() {
    let analyzer = QueryAnalyzer::new(&["general", "archive"])
        .with_collection_rule(CollectionRule::new("engineering", &["rust"]));
    let analyzed = analyzer.analyze("gardening tips");
    assert_eq!(analyzed.selected_collections, vec!["general", "archive"]);
    assert_eq!(analyzed.original, "gardening tips");
}

#[test]
fn default_expansions_and_static_provider() {
    assert_eq!(default_expansions("bug"), vec!["error", "issue", "defect"]);
    assert!(default_expansions("unknown").is_empty());
    let provider = StaticTermExpansionProvider::new().with_terms("Auth", &["OAuth", "  ", "SSO"]);
    assert_eq!(provider.expand_term("auth"), vec!["oauth", "sso"]);
    assert_eq!(provider.expand_term("login"), vec!["signin", "authentication", "session"]);
}

#[test]
fn expansion_respects_budget_and_uniqueness() {
    let analyzed = QueryAnalyzer::default().analyze("bug bug fix");
    let expanded = QueryExpander::new().with_max_terms(3).expand(&analyzed);
    assert_eq!(expanded.terms, vec!["bug", "error", "issue"]);
    let full = QueryExpander::new().expand(&analyzed);
    assert_eq!(
        full.terms,
        vec!["bug", "error", "issue", "defect", "fix", "repair", "resolve", "patch"]
    );
    assert_eq!(full.original, "bug bug fix");
    let search = ExpandedQuery { original: "q".to_string(), terms: vec!["a".into(), "b".into()] };
    assert_eq!(search.as_search_text(), "a b");
}

// ---------------------------------------------------------------------------
// Providers
// ---------------------------------------------------------------------------

#[test]
fn provider_error_messages() {
    assert_eq!(
        ProviderError::RateLimited("slow".into()).message(),
        "provider rate limit exceeded: slow"
    );
    assert_eq!(
        ProviderError::HttpStatus { status: 503, body: "down".into() }.message(),
        "provider returned HTTP 503 Service Unavailable: down"
    );
    match ContextraError::from(ProviderError::HttpStatus { status: 500, body: "x".into() }) {
        ContextraError::ProviderError(m) => {
            assert_eq!(m, "provider returned HTTP 500 Internal Server Error: x")
        }
        other => panic!("unexpected {other:?}"),
    }
    assert!(matches!(
        ContextraError::from(ProviderError::HttpStatus { status: 403, body: "no".into() }),
        ContextraError::Forbidden(m) if m == "no"
    ));
    assert!(matches!(
        ContextraError::from(ProviderError::MissingConfiguration("k".into())),
        ContextraError::Validation(m) if m == "k"
    ));
    assert!(matches!(
        ContextraError::from(ProviderError::Timeout("t".into())),
        ContextraError::ProviderError(m) if m == "provider timeout: t"
    ));
    assert!(matches!(
        ProviderError::from_request_failure(true, "late".into()),
        ProviderError::Timeout(m) if m == "late"
    ));
}

#[test]
fn status_errors_and_retries() {
    assert!(matches!(map_status_error(401, "a".into()), ProviderError::Authentication(_)));
    assert!(matches!(map_status_error(429, "b".into()), ProviderError::RateLimited(_)));
    assert!(matches!(map_status_error(404, "c".into()), ProviderError::HttpStatus { status: 404, .. }));
    assert!(is_retryable_status(429));
    assert!(is_retryable_status(502));
    assert!(!is_retryable_status(400));
    assert!(is_retryable_request_error(&ProviderError::Network("n".into())));
    assert!(!is_retryable_request_error(&ProviderError::Decode("d".into())));
    assert!(matches!(next_retry_step(0, 2, AttemptOutcome::Success), RetryStep::Deliver));
    assert!(matches!(
        next_retry_step(0, 2, AttemptOutcome::Status { status: 503, body: "x".into() }),
        RetryStep::Retry
    ));
    assert!(matches!(
        next_retry_step(2, 2, AttemptOutcome::Status { status: 503, body: "x".into() }),
        RetryStep::Fail(ProviderError::HttpStatus { status: 503, .. })
    ));
    assert!(matches!(
        next_retry_step(0, 2, AttemptOutcome::Status { status: 400, body: "x".into() }),
        RetryStep::Fail(ProviderError::HttpStatus { status: 400, .. })
    ));
    assert!(matches!(
        next_retry_step(1, 2, AttemptOutcome::Failed(ProviderError::Timeout("t".into()))),
        RetryStep::Retry
    ));
}

#[test]
fn backoff_doubles_and_caps() {
    let ms = 1_000_000u128;
    assert_eq!(capped_backoff_nanos(250 * ms, 5_000 * ms, 0), 250 * ms);
    assert_eq!(capped_backoff_nanos(250 * ms, 5_000 * ms, 2), 1_000 * ms);
    assert_eq!(capped_backoff_nanos(250 * ms, 5_000 * ms, 5), 5_000 * ms);
    assert_eq!(capped_backoff_nanos(1, u128::from(u64::MAX), 100), 65_536);
}

#[test]
fn provider_names_and_urls() {
    assert_eq!(normalize_provider_name("  OpenAI "), "openai");
    assert_eq!(trim_trailing_slashes("https://api.example.com///"), "https://api.example.com");
    assert_eq!(
        chat_completions_url("https://api.example.com"),
        "https://api.example.com/v1/chat/completions"
    );
    let missing = ProvidersSettings { openai_api_key: None, anthropic_api_key: None };
    assert!(matches!(
        openai_key_for(&missing, "openai"),
        Err(ProviderError::MissingConfiguration(m)) if m == "providers.openai_api_key is required"
    ));
    assert!(matches!(
        openai_key_for(&missing, " Anthropic"),
        Err(ProviderError::UnsupportedProvider(m)) if m == "anthropic"
    ));
}

#[test]
fn registry_orders_and_replaces() {
    let mut registry: ProviderRegistry<u32> = ProviderRegistry::new();
    assert_eq!(registry.register_llm("zeta", 1), None);
    assert_eq!(registry.register_llm("Alpha", 2), None);
    assert_eq!(registry.register_llm(" ALPHA ", 3), Some(2));
    assert_eq!(registry.llm_names(), vec!["alpha".to_string(), "zeta".to_string()]);
    assert_eq!(registry.get_llm("alpha"), Some(3));
    assert_eq!(registry.get_llm("missing"), None);
    assert!(!registry.contains_llm("beta"));
    let copy = registry.clone();
    assert_eq!(copy.llm_names(), registry.llm_names());
}

#[test]
fn sse_decoder_handles_split_chunks() {
    let mut decoder = SseDecoder::new();
    let first = decoder.feed("data: {\"a\":1}\n\ndata: par");
    assert_eq!(sse_view(&first), vec![Some("{\"a\":1}".to_string())]);
    let second = decoder.feed("tial\n\n: comment\n\ndata: [DONE]\n\n");
    assert_eq!(sse_view(&second), vec![Some("partial".to_string()), None]);
    assert!(decoder.finish().is_ok());

    let mut broken = SseDecoder::new();
    assert!(broken.feed("data: x").is_empty());
    assert!(matches!(
        broken.finish(),
        Err(ProviderError::Stream(m)) if m == "stream ended with an incomplete SSE event"
    ));

    let mut bytes = SseDecoder::new();
    let items = bytes.feed_bytes(&[b'd', b'a', b't', b'a', b':', 0xff, b'\n', b'\n']);
    assert_eq!(sse_view(&items), vec![Some("\u{fffd}".to_string())]);
}

#[test]
fn sse_data_lines_are_joined() {
    assert_eq!(parse_sse_data("event: x\ndata: a\r\ndata:b"), Some("a\nb".to_string()));
    assert_eq!(parse_sse_data("data: a\r"), Some("a\r".to_string()));
    assert_eq!(parse_sse_data("id: 1"), None);
}

#[test]
fn openai_responses_convert() {
    let response = OpenAIChatResponse {
        id: "chatcmpl-test".into(),
        model: "gpt-test".into(),
        choices: vec![OpenAIChoice {
            message: OpenAIMessage {
                role: ChatRole::Assistant,
                content: Some("Hello from OpenAI".into()),
                name: None,
                tool_call_id: None,
                tool_calls: vec![OpenAIToolCall {
                    id: "call_1".into(),
                    tool_type: "function".into(),
                    function: FunctionCall { name: "f".into(), arguments: "{}".into() },
                }],
            },
            finish_reason: Some("stop".into()),
        }],
        usage: Some(TokenUsage { prompt_tokens: 3, completion_tokens: 4, total_tokens: 7 }),
    };
    let chat = response.try_into_chat_response().expect("one choice");
    assert_eq!(chat.id, "chatcmpl-test");
    assert_eq!(chat.message.content.as_deref(), Some("Hello from OpenAI"));
    assert_eq!(chat.message.tool_calls[0].id, "call_1");
    assert_eq!(chat.finish_reason.as_deref(), Some("stop"));
    assert_eq!(chat.usage.map(|u| u.total_tokens), Some(7));

    let empty = OpenAIChatResponse { id: "x".into(), model: "m".into(), choices: vec![], usage: None };
    assert!(matches!(empty.try_into_chat_response(), Err(ProviderError::Decode(_))));

    let wire = OpenAIMessage::from_chat_message(ChatMessage::tool("call_9", "result"));
    assert_eq!(wire.role, ChatRole::Tool);
    assert_eq!(wire.tool_call_id.as_deref(), Some("call_9"));

    let stream = OpenAIStreamResponse {
        id: "s".into(),
        model: "m".into(),
        choices: vec![
            OpenAIStreamChoice {
                delta: OpenAIStreamDelta { content: Some("Hel".into()), ..Default::default() },
                finish_reason: None,
            },
            OpenAIStreamChoice { delta: OpenAIStreamDelta::default(), finish_reason: Some("stop".into()) },
        ],
        usage: None,
    };
    let chunks = stream.into_chat_chunks();
    assert_eq!(chunks.len(), 2);
    assert_eq!(chunks[0].delta.content.as_deref(), Some("Hel"));
    assert_eq!(chunks[1].finish_reason.as_deref(), Some("stop"));
    let delta = ChatDelta::from_openai(OpenAIStreamDelta { role: Some(ChatRole::Assistant), ..Default::default() });
    assert_eq!(delta.role, Some(ChatRole::Assistant));
    assert_eq!(ChatMessage::user("hi").content.as_deref(), Some("hi"));
}

// ---------------------------------------------------------------------------
// Metadata and retrieval
// ---------------------------------------------------------------------------

#[test]
fn metadata_reads_back_writes() {
    let mut payload = Metadata::new();
    assert!(payload.insert("a".into(), text("x")).is_none());
    assert!(payload.insert("b".into(), integer(1)).is_none());
    assert!(matches!(payload.insert("a".into(), text("y")), Some(JsonValue::String(s)) if s == "x"));
    assert_eq!(payload.len(), 2);
    assert!(matches!(payload.get("a"), Some(JsonValue::String(s)) if s == "y"));
    assert!(payload.get("c").is_none());
}

#[test]
fn json_comparisons() {
    assert!(text("Docs").filter_equals(&text("docs")));
    assert!(!text("Docs").structurally_equal(&text("docs")));
    assert!(integer(2).structurally_equal(&integer(2)));
    assert!(!integer(2).structurally_equal(&float(2.0)));
    let a = JsonValue::Object(vec![("k".into(), integer(1)), ("j".into(), JsonValue::Null)]);
    let b = JsonValue::Object(vec![("j".into(), JsonValue::Null), ("k".into(), integer(1))]);
    assert!(a.structurally_equal(&b));
    assert!(texts(&["A", "b"]).contains_text(&"a".chars().collect()));
    assert!(JsonValue::Bool(true).matches_text(&"true".chars().collect()));
}

#[test]
fn metadata_conditions_compare_numbers_and_text() {
    let payload = metadata(vec![("version", integer(3)), ("ratio", float(0.5)), ("name", text("Guide"))]);
    let cond = |field: &str, operator: FilterOperator, value: JsonValue| MetadataCondition {
        field: field.to_string(),
        operator,
        value,
    };
    assert!(cond("version", FilterOperator::GreaterThan, integer(2)).matches(&payload));
    assert!(!cond("version", FilterOperator::LessThan, integer(3)).matches(&payload));
    assert!(cond("version", FilterOperator::LessThanOrEqual, integer(3)).matches(&payload));
    assert!(cond("ratio", FilterOperator::LessThan, integer(1)).matches(&payload));
    assert!(cond("ratio", FilterOperator::GreaterThan, float(-2.5)).matches(&payload));
    assert!(MetadataCondition::equals("name", text("guide")).matches(&payload));
    assert!(cond("name", FilterOperator::NotEquals, text("other")).matches(&payload));
    assert!(MetadataCondition::contains("name", text("GUIDE")).matches(&payload));
    assert!(!MetadataCondition::contains("name", integer(1)).matches(&payload));
    assert!(!MetadataCondition::equals("missing", text("x")).matches(&payload));
}

#[test]
fn filters_reject_mismatches() {
    let payload = metadata(vec![("collection", text("docs")), ("permissions", texts(&["read"]))]);
    assert!(RetrievalFilter::new().matches(&payload));
    let mut filter = RetrievalFilter::new();
    filter.collection = Some("DOCS".into());
    assert!(filter.matches(&payload));
    filter.permissions = vec!["write".into()];
    assert!(!filter.matches(&payload));
    filter.permissions = vec!["write".into(), "read".into()];
    assert!(filter.matches(&payload));
    filter.tags = vec!["rust".into()];
    assert!(!filter.matches(&payload));
    let admitted = filter.admitted(&[payload, Metadata::new()]);
    assert!(admitted.is_empty());
}

#[test]
fn requests_validate_and_size_candidates() {
    assert_eq!(default_limit(), 10);
    assert_eq!(RetrievalMode::default(), RetrievalMode::Semantic);
    let request = RetrievalRequest::hybrid("rust", "docs", 0);
    assert_eq!(request.mode, RetrievalMode::Hybrid);
    assert_eq!(request.validated_limit().ok(), Some(1));
    assert!(matches!(
        RetrievalRequest::semantic("  ", "docs", 5).validated_limit(),
        Err(ContextraError::Validation(m)) if m == "retrieval query cannot be empty"
    ));
    assert!(matches!(
        RetrievalRequest::keyword("q", " ", 5).validated_limit(),
        Err(ContextraError::Validation(m)) if m == "retrieval collection cannot be empty"
    ));
    assert_eq!(candidate_limit(10, 8, 64), 80);
    assert_eq!(candidate_limit(2, 8, 64), 64);
    assert_eq!(candidate_limit(0, 8, 0), 8);
    assert_eq!(candidate_limit(usize::MAX, 8, 64), usize::MAX);
}

#[test]
fn payload_text_joins_field_values() {
    let payload = metadata(vec![
        ("title", text("Cache Guide")),
        ("tags", JsonValue::Array(vec![text("redis"), JsonValue::Bool(false), integer(7)])),
        ("extra", JsonValue::Null),
    ]);
    let fields = vec!["title".to_string(), "missing".to_string(), "tags".to_string(), "extra".to_string()];
    assert_eq!(payload_text(&payload, &fields), "Cache Guide redis false 7");
    assert_eq!(value_text(&JsonValue::Null), Vec::<String>::new());
}

#[test]
fn keyword_statistics_count_terms() {
    let docs = vec![
        "Redis cache invalidation guide".to_string(),
        "cache the cache".to_string(),
        "nothing here".to_string(),
    ];
    let stats = keyword_stats("cache redis cache", &docs);
    assert_eq!(stats.terms, vec!["cache", "redis"]);
    assert_eq!(stats.doc_lengths, vec![4, 2, 2]);
    assert_eq!(stats.term_counts, vec![vec![1, 1], vec![2, 0], vec![0, 0]]);
    assert_eq!(stats.doc_freqs, vec![2, 1]);
}

// ---------------------------------------------------------------------------
// Laws on concrete values
// ---------------------------------------------------------------------------

#[test]
fn truncating_a_window_again_changes_nothing() {
    let id = ConversationId::new();
    let messages = vec![
        message(id, Role::User, "one two three four"),
        message(id, Role::System, "keep me"),
        message(id, Role::Assistant, "five six"),
        message(id, Role::User, "seven"),
        message(id, Role::System, "and me"),
        message(id, Role::User, "eight nine"),
    ];
    for preserve in [true, false] {
        let truncator =
            SlidingWindowTruncator::with_counter(4, WordTokenCounter).preserve_system_messages(preserve);
        let once = truncator.truncate(&messages);
        let twice = truncator.truncate(&once);
        let a: Vec<&str> = once.iter().map(|m| m.content.as_str()).collect();
        let b: Vec<&str> = twice.iter().map(|m| m.content.as_str()).collect();
        assert_eq!(a, b);
    }
}

#[test]
fn sse_chunk_boundaries_do_not_matter() {
    let stream = "data: a\n\ndata: b\ndata: c\n\n: note\n\ndata: d\n\ndata: [DONE]\n\n";
    let mut whole = SseDecoder::new();
    let expected = sse_view(&whole.feed(stream));
    assert_eq!(
        expected,
        vec![Some("a".to_string()), Some("b\nc".to_string()), Some("d".to_string()), None]
    );
    for split in 0..=stream.len() {
        let mut pieces = SseDecoder::new();
        let mut items = sse_view(&pieces.feed(&stream[..split]));
        if !items.contains(&None) {
            items.extend(sse_view(&pieces.feed(&stream[split..])));
        }
        assert_eq!(items, expected, "split at {split}");
    }
}

#[test]
fn provider_keys_are_stable() {
    for name in ["  OpenAI ", "openai", "\tAzure-OpenAI\n", ""] {
        let key = normalize_provider_name(name);
        assert_eq!(normalize_provider_name(&key), key);
    }
}

#[test]
fn retries_stop_at_the_last_attempt() {
    let max_retries = 3;
    let mut attempts = 0;
    loop {
        attempts += 1;
        let step = next_retry_step(
            attempts - 1,
            max_retries,
            AttemptOutcome::Failed(ProviderError::Network("down".into())),
        );
        if !matches!(step, RetryStep::Retry) {
            assert!(matches!(step, RetryStep::Fail(ProviderError::Network(_))));
            break;
        }
    }
    assert_eq!(attempts, max_retries + 1);
    let mut previous = 0;
    for attempt in 0..40 {
        let delay = capped_backoff_nanos(3, 1_000_000, attempt);
        assert!(delay >= previous && delay <= 1_000_000);
        previous = delay;
    }
}

#[test]
fn expansion_with_given_expansions() {
    let analyzed = QueryAnalyzer::default().analyze("cache Bug");
    let tokens = tokenize(&analyzed.normalized);
    assert_eq!(tokens, vec!["cache", "bug"]);
    let expansions = vec![
        vec!["Redis".to_string(), "cache".to_string()],
        vec!["".to_string(), "defect".to_string()],
    ];
    let expanded = QueryExpander::new().expand_with_expansions(&analyzed, &expansions);
    assert_eq!(expanded.terms, vec!["cache", "redis", "bug", "defect"]);
    let mut seen = std::collections::HashSet::new();
    assert!(expanded.terms.iter().all(|t| !t.is_empty() && seen.insert(t.clone())));
}

#[test]
fn tool_choices_in_wire_form() {
    assert!(matches!(tool_choice_to_openai_value(ToolChoice::Auto), JsonValue::String(s) if s == "auto"));
    assert!(matches!(tool_choice_to_openai_value(ToolChoice::Disabled), JsonValue::String(s) if s == "none"));
    assert!(matches!(tool_choice_to_openai_value(ToolChoice::Required), JsonValue::String(s) if s == "required"));
    let function = tool_choice_to_openai_value(ToolChoice::Function { name: "lookup".into() });
    let expected = JsonValue::Object(vec![
        ("type".into(), text("function")),
        ("function".into(), JsonValue::Object(vec![("name".into(), text("lookup"))])),
    ]);
    assert!(function.structurally_equal(&expected));
}

#[test]
fn json_values_equal_themselves() {
    let value = JsonValue::Object(vec![
        ("a".into(), texts(&["x", "Y"])),
        ("b".into(), JsonValue::Object(vec![("c".into(), float(1.5)), ("d".into(), JsonValue::Null)])),
        ("e".into(), integer(-4)),
    ]);
    assert!(value.structurally_equal(&value));
    assert!(value.filter_equals(&value));
}

struct EchoProvider;

impl TermExpansionProvider for EchoProvider {
    fn expand_term(&self, term: &str) -> Vec<String> {
        vec![format!("{term}s"), term.to_uppercase()]
    }
}

#[test]
fn expander_uses_a_pluggable_provider() {
    let analyzed = QueryAnalyzer::default().analyze("index cache");
    let expanded = QueryExpander::with_provider(EchoProvider).expand(&analyzed);
    assert_eq!(expanded.terms, vec!["index", "indexs", "cache", "caches"]);
}

#[test]
fn entities_are_listed_once_and_trimmed() {
    let entities = extract_entities(r#""  a b " "a b" #x #X x-1 x-1"#);
    let pairs: Vec<(QueryEntityKind, &str)> =
        entities.iter().map(|e| (e.kind, e.value.as_str())).collect();
    assert_eq!(
        pairs,
        vec![
            (QueryEntityKind::QuotedPhrase, "a b"),
            (QueryEntityKind::Hashtag, "x"),
            (QueryEntityKind::Identifier, "x-1"),
        ]
    );
}

#[test]
fn message_cost_is_overhead_plus_content_saturating() {
    assert_eq!(message_token_cost(&Role::Tool, 10), 15);
    assert_eq!(message_token_cost(&Role::System, usize::MAX - 1), usize::MAX);
}

#[test]
fn normalizing_twice_changes_nothing() {
    for query in ["  Fix Rust bug BUG-123 for \"Login Flow\" #auth ", "a--b  c", "ÄÖ Straße!", ""] {
        let once = normalize_query_text(query);
        assert_eq!(normalize_query_text(&once), once);
        assert_eq!(once.trim(), once);
        assert!(!once.contains("  "));
    }
}

#[test]
fn static_terms_replace_the_defaults() {
    let analyzed = QueryAnalyzer::default().analyze("bug");
    let custom = QueryExpander::new().with_static_terms("bug", &["Glitch"]).expand(&analyzed);
    assert_eq!(custom.terms, vec!["bug", "glitch"]);
    let defaults = QueryExpander::new().expand(&analyzed);
    assert_eq!(defaults.terms, vec!["bug", "error", "issue", "defect"]);
    let auth = QueryExpander::new()
        .with_static_terms("auth", &["oauth", "identity"])
        .with_max_terms(8)
        .expand(&QueryAnalyzer::default().analyze("auth vector"));
    assert_eq!(
        auth.terms,
        vec!["auth", "oauth", "identity", "vector", "embedding", "semantic", "similarity"]
    );
    assert_eq!(auth.original, "auth vector");
}
