//! Query analysis: normalization, tokenization, intent detection, entity
//! extraction and collection selection.
use vstd::prelude::*;

use crate::text::{
    append_chars, chars_eq_str, chars_of, copy_chars, is_alphanumeric, join, join_chars, lowercase,
    split_whitespace, split_ws, string_of, to_lowercase, trim, trim_chars, trim_end, trim_end_chars,
    contains_seq, contains_str, contains_chars, chars_eq, is_ascii_punct, is_ascii_upper, is_ascii_digit,
    is_ascii_alpha, is_ascii_alnum, ascii_punct, ascii_upper, ascii_digit, ascii_alpha, ascii_alnum, unicode_alphanumeric,
    utf8_len, words, ascii_lower_of, is_ascii_char, is_white_space,
};

verus! {

// ---------------------------------------------------------------------------
// Normalization and tokenization
// ---------------------------------------------------------------------------

/// A character kept by normalization: alphanumeric, `_`, `#` or `@`.
pub open spec fn is_query_char(c: char) -> bool {
    unicode_alphanumeric(c) || c == '_' || c == '#' || c == '@'
}

/// Normalization of one character: kept, or replaced by a space.
pub open spec fn query_char(c: char) -> char {
    if is_query_char(c) {
        c
    } else {
        ' '
    }
}

/// Normalized form of a query: trimmed, lowercased, every character other
/// than alphanumerics, `_`, `#` and `@` turned into a space, and the
/// remaining words joined by single spaces.
pub open spec fn normalize(q: Seq<char>) -> Seq<char> {
    join(split_ws(lowercase(trim(q)).map_values(|c: char| query_char(c))), seq![' '])
}

/// Every character is ASCII.
pub open spec fn all_ascii(s: Seq<char>) -> bool {
    forall|i: int| 0 <= i < s.len() ==> is_ascii_char(#[trigger] s[i])
}

/// Normalized form of an all-ASCII query: as `normalize`, with ASCII
/// lowercasing, which is what lowercasing does to ASCII.
pub open spec fn ascii_normalize(q: Seq<char>) -> Seq<char> {
    join(
        split_ws(trim(q).map_values(|c: char| ascii_lower_of(c)).map_values(|c: char| query_char(c))),
        seq![' '],
    )
}

fn normalize_chars(q: &Vec<char>) -> (r: Vec<char>)
    ensures
        r@ == normalize(q@),
        all_ascii(q@) ==> r@ == ascii_normalize(q@),
{
    let trimmed = trim_chars(q);
    let trimmed_s = string_of(&trimmed);
    proof {
        if all_ascii(q@) {
            crate::text::lemma_trim_from(q@);
            assert forall|i: int| 0 <= i < trimmed_s@.len() implies is_ascii_char(#[trigger] trimmed_s@[i]) by {
                let j = choose|j: int| 0 <= j < q@.len() && q@[j] == trim(q@)[i];
            }
        }
    }
    let lowered_s = to_lowercase(trimmed_s.as_str());
    let lowered = chars_of(lowered_s.as_str());
    let mut mapped: Vec<char> = Vec::new();
    let mut i: usize = 0;
    while i < lowered.len()
        invariant
            i <= lowered.len(),
            mapped@ == lowered@.take(i as int).map_values(|c: char| query_char(c)),
        decreases lowered.len() - i,
    {
        let c = lowered[i];
        let keep = is_alphanumeric(c) || c == '_' || c == '#' || c == '@';
        mapped.push(if keep { c } else { ' ' });
        i = i + 1;
        proof {
            assert(mapped@ =~= lowered@.take(i as int).map_values(|c: char| query_char(c)));
        }
    }
    proof {
        assert(lowered@.take(lowered.len() as int) =~= lowered@);
    }
    let ws = split_whitespace(&mapped);
    let mut sep: Vec<char> = Vec::new();
    sep.push(' ');
    proof {
        assert(sep@ =~= seq![' ']);
    }
    join_chars(&ws, &sep)
}

/// Normalizes a query: trims it, lowercases it, replaces every character
/// other than an alphanumeric, `_`, `#` or `@` by a space, and joins the
/// remaining words with single spaces.
pub fn normalize_query_text(query: &str) -> (r: String)
    ensures
        r@ == normalize(query@),
        all_ascii(query@) ==> r@ == ascii_normalize(query@),
{
    let q = chars_of(query);
    let n = normalize_chars(&q);
    string_of(&n)
}

/// The stop words that tokenization drops.
pub open spec fn is_stop(t: Seq<char>) -> bool {
    ||| t == "a"@
    ||| t == "an"@
    ||| t == "and"@
    ||| t == "are"@
    ||| t == "as"@
    ||| t == "at"@
    ||| t == "be"@
    ||| t == "by"@
    ||| t == "for"@
    ||| t == "from"@
    ||| t == "in"@
    ||| t == "is"@
    ||| t == "it"@
    ||| t == "of"@
    ||| t == "on"@
    ||| t == "or"@
    ||| t == "that"@
    ||| t == "the"@
    ||| t == "this"@
    ||| t == "to"@
    ||| t == "with"@
}

/// Whether a token is a stop word.
pub fn is_stop_word(token: &Vec<char>) -> (r: bool)
    ensures
        r == is_stop(token@),
{
    chars_eq_str(token, "a") || chars_eq_str(token, "an") || chars_eq_str(token, "and")
        || chars_eq_str(token, "are") || chars_eq_str(token, "as") || chars_eq_str(token, "at")
        || chars_eq_str(token, "be") || chars_eq_str(token, "by") || chars_eq_str(token, "for")
        || chars_eq_str(token, "from") || chars_eq_str(token, "in") || chars_eq_str(token, "is")
        || chars_eq_str(token, "it") || chars_eq_str(token, "of") || chars_eq_str(token, "on")
        || chars_eq_str(token, "or") || chars_eq_str(token, "that") || chars_eq_str(
        token,
        "the",
    ) || chars_eq_str(token, "this") || chars_eq_str(token, "to") || chars_eq_str(token, "with")
}

/// A word kept as a search token: longer than one byte and not a stop word.
pub open spec fn is_search_token(t: Seq<char>) -> bool {
    utf8_len(t) > 1 && !is_stop(t)
}

/// The words of `ws` that are search tokens, in order.
pub open spec fn search_tokens(ws: Seq<Seq<char>>) -> Seq<Seq<char>>
    decreases ws.len(),
{
    if ws.len() == 0 {
        Seq::empty()
    } else if is_search_token(ws.last()) {
        search_tokens(ws.drop_last()).push(ws.last())
    } else {
        search_tokens(ws.drop_last())
    }
}

/// The search tokens of a normalized text.
pub open spec fn tokens_of(normalized: Seq<char>) -> Seq<Seq<char>> {
    search_tokens(split_ws(normalized))
}

/// Number of bytes of the UTF-8 encoding of the characters.
pub fn utf8_byte_len(s: &Vec<char>) -> (r: usize)
    requires
        s.len() <= usize::MAX / 4,
    ensures
        r == utf8_len(s@),
{
    let mut total: usize = 0;
    let mut i: usize = 0;
    while i < s.len()
        invariant
            i <= s.len() <= usize::MAX / 4,
            total == utf8_len(s@.take(i as int)),
            total <= 4 * i,
        decreases s.len() - i,
    {
        let c = s[i];
        let w: usize = if (c as u32) < 0x80 {
            1
        } else if (c as u32) < 0x800 {
            2
        } else if (c as u32) < 0x10000 {
            3
        } else {
            4
        };
        proof {
            assert(s@.take(i + 1).drop_last() =~= s@.take(i as int));
        }
        total = total + w;
        i = i + 1;
    }
    proof {
        assert(s@.take(s.len() as int) =~= s@);
    }
    total
}

/// Whether a word is kept as a search token.
fn is_search_token_exec(t: &Vec<char>) -> (r: bool)
    ensures
        r == is_search_token(t@),
{
    let long = if t.len() >= 2 {
        proof {
            lemma_utf8_len_at_least_len(t@);
        }
        true
    } else {
        utf8_byte_len(t) > 1
    };
    long && !is_stop_word(t)
}

proof fn lemma_utf8_len_at_least_len(s: Seq<char>)
    ensures
        utf8_len(s) >= s.len(),
    decreases s.len(),
{
    if s.len() > 0 {
        lemma_utf8_len_at_least_len(s.drop_last());
    }
}

fn tokenize_chars(normalized: &Vec<char>) -> (r: Vec<Vec<char>>)
    ensures
        words(r@) == tokens_of(normalized@),
{
    let ws = split_whitespace(normalized);
    let mut r: Vec<Vec<char>> = Vec::new();
    let mut i: usize = 0;
    proof {
        assert(words(r@) =~= search_tokens(words(ws@).take(0)));
    }
    while i < ws.len()
        invariant
            i <= ws.len(),
            words(ws@) == split_ws(normalized@),
            words(r@) == search_tokens(words(ws@).take(i as int)),
        decreases ws.len() - i,
    {
        let ghost before = words(r@);
        proof {
            assert(words(ws@).take(i + 1).drop_last() =~= words(ws@).take(i as int));
            assert(words(ws@).take(i + 1).last() == ws@[i as int]@);
        }
        if is_search_token_exec(&ws[i]) {
            let t = copy_chars(&ws[i]);
            r.push(t);
            proof {
                assert(words(r@) =~= before.push(ws@[i as int]@));
            }
        }
        i = i + 1;
    }
    proof {
        assert(words(ws@).take(ws.len() as int) =~= words(ws@));
    }
    r
}

/// The search tokens of a normalized text: its words longer than one byte
/// that are not stop words.
pub fn tokenize(normalized: &str) -> (r: Vec<String>)
    ensures
        strings(r@) == tokens_of(normalized@),
{
    let n = chars_of(normalized);
    let ts = tokenize_chars(&n);
    strings_of(&ts)
}

// ---------------------------------------------------------------------------
// Intent detection
// ---------------------------------------------------------------------------

/// What a query asks for.
#[derive(Debug, Clone, Copy, PartialEq, Eq, Structural)]
pub enum QueryIntent {
    Search,
    Question,
    Summary,
    Comparison,
    Code,
    Command,
}

/// The first word of a text, or the empty sequence when it has none.
pub open spec fn first_word(s: Seq<char>) -> Seq<char> {
    if split_ws(s).len() > 0 {
        split_ws(s)[0]
    } else {
        Seq::empty()
    }
}

pub open spec fn is_summary_word(w: Seq<char>) -> bool {
    w == "summarize"@ || w == "summary"@ || w == "recap"@ || w == "tldr"@
}

pub open spec fn is_command_word(w: Seq<char>) -> bool {
    ||| w == "implement"@
    ||| w == "create"@
    ||| w == "update"@
    ||| w == "delete"@
    ||| w == "fix"@
    ||| w == "write"@
    ||| w == "run"@
}

pub open spec fn is_question_word(w: Seq<char>) -> bool {
    ||| w == "what"@
    ||| w == "why"@
    ||| w == "how"@
    ||| w == "when"@
    ||| w == "where"@
    ||| w == "who"@
    ||| w == "which"@
}

pub open spec fn mentions_comparison(n: Seq<char>) -> bool {
    contains_seq(n, "compare "@) || contains_seq(n, " vs "@) || contains_seq(n, " versus "@)
}

pub open spec fn mentions_code(n: Seq<char>) -> bool {
    ||| contains_seq(n, "code"@)
    ||| contains_seq(n, "function"@)
    ||| contains_seq(n, "struct"@)
    ||| contains_seq(n, "trait"@)
    ||| contains_seq(n, "rust"@)
    ||| contains_seq(n, "python"@)
    ||| contains_seq(n, "typescript"@)
    ||| contains_seq(n, "javascript"@)
}

/// The original text ends with `?`, trailing whitespace aside.
pub open spec fn ends_with_question_mark(original: Seq<char>) -> bool {
    trim_end(original).len() > 0 && trim_end(original).last() == '?'
}

/// The intent of a query, from its original and its normalized text, by the
/// first rule that applies: comparison wording, a summary verb first, a
/// command verb first, a programming term anywhere, a question, else search.
pub open spec fn intent_of(original: Seq<char>, normalized: Seq<char>) -> QueryIntent {
    let first = first_word(normalized);
    if mentions_comparison(normalized) {
        QueryIntent::Comparison
    } else if is_summary_word(first) {
        QueryIntent::Summary
    } else if is_command_word(first) {
        QueryIntent::Command
    } else if mentions_code(normalized) {
        QueryIntent::Code
    } else if ends_with_question_mark(original) || is_question_word(first) {
        QueryIntent::Question
    } else {
        QueryIntent::Search
    }
}

fn first_word_chars(n: &Vec<char>) -> (r: Vec<char>)
    ensures
        r@ == first_word(n@),
{
    let ws = split_whitespace(n);
    if ws.len() > 0 {
        copy_chars(&ws[0])
    } else {
        Vec::new()
    }
}

/// Detects the intent of a query from its original and normalized text.
pub fn detect_intent(original: &str, normalized: &str) -> (r: QueryIntent)
    ensures
        r == intent_of(original@, normalized@),
{
    let n = chars_of(normalized);
    let first = first_word_chars(&n);
    if contains_str(&n, "compare ") || contains_str(&n, " vs ") || contains_str(&n, " versus ") {
        QueryIntent::Comparison
    } else if chars_eq_str(&first, "summarize") || chars_eq_str(&first, "summary")
        || chars_eq_str(&first, "recap") || chars_eq_str(&first, "tldr") {
        QueryIntent::Summary
    } else if chars_eq_str(&first, "implement") || chars_eq_str(&first, "create")
        || chars_eq_str(&first, "update") || chars_eq_str(&first, "delete") || chars_eq_str(
        &first,
        "fix",
    ) || chars_eq_str(&first, "write") || chars_eq_str(&first, "run") {
        QueryIntent::Command
    } else if contains_str(&n, "code") || contains_str(&n, "function") || contains_str(
        &n,
        "struct",
    ) || contains_str(&n, "trait") || contains_str(&n, "rust") || contains_str(&n, "python")
        || contains_str(&n, "typescript") || contains_str(&n, "javascript") {
        QueryIntent::Code
    } else {
        let o = chars_of(original);
        let t = trim_end_chars(&o);
        let question = t.len() > 0 && t[t.len() - 1] == '?';
        if question || chars_eq_str(&first, "what") || chars_eq_str(&first, "why")
            || chars_eq_str(&first, "how") || chars_eq_str(&first, "when") || chars_eq_str(
            &first,
            "where",
        ) || chars_eq_str(&first, "who") || chars_eq_str(&first, "which") {
            QueryIntent::Question
        } else {
            QueryIntent::Search
        }
    }
}

// ---------------------------------------------------------------------------
// Entity extraction
// ---------------------------------------------------------------------------

/// The kinds of entities recognized in a query.
#[derive(Debug, Clone, Copy, PartialEq, Eq, Hash, Structural)]
pub enum QueryEntityKind {
    Email,
    Hashtag,
    QuotedPhrase,
    FileType,
    Identifier,
    ProperNoun,
}

/// An entity found in a query.
#[derive(Debug)]
pub struct QueryEntity {
    pub kind: QueryEntityKind,
    pub value: String,
}

impl Clone for QueryEntity {
    fn clone(&self) -> (r: Self)
        ensures
            r == *self,
    {
        QueryEntity { kind: self.kind, value: self.value.clone() }
    }
}

impl PartialEq for QueryEntity {
    fn eq(&self, other: &Self) -> (r: bool) {
        self.kind == other.kind && self.value == other.value
    }
}

impl vstd::std_specs::cmp::PartialEqSpecImpl for QueryEntity {
    open spec fn obeys_eq_spec() -> bool {
        true
    }

    open spec fn eq_spec(&self, other: &Self) -> bool {
        self.kind == other.kind && self.value@ == other.value@
    }
}

impl Eq for QueryEntity {}

/// An entity as a kind and the characters of its value.
pub open spec fn entity_view(e: QueryEntity) -> (QueryEntityKind, Seq<char>) {
    (e.kind, e.value@)
}

/// The kinds and values of a sequence of entities.
pub open spec fn entity_views(es: Seq<QueryEntity>) -> Seq<(QueryEntityKind, Seq<char>)> {
    es.map_values(|e: QueryEntity| entity_view(e))
}

/// An ASCII punctuation character that token trimming removes; with
/// `keep_markers`, `#`, `@` and `.` are kept.
pub open spec fn strippable(c: char, keep_markers: bool) -> bool {
    is_ascii_punct(c) && !(keep_markers && (c == '#' || c == '@' || c == '.'))
}

/// `s` without leading strippable characters.
pub open spec fn strip_start(s: Seq<char>, keep_markers: bool) -> Seq<char>
    decreases s.len(),
{
    if s.len() > 0 && strippable(s[0], keep_markers) {
        strip_start(s.drop_first(), keep_markers)
    } else {
        s
    }
}

/// `s` without trailing strippable characters.
pub open spec fn strip_end(s: Seq<char>, keep_markers: bool) -> Seq<char>
    decreases s.len(),
{
    if s.len() > 0 && strippable(s.last(), keep_markers) {
        strip_end(s.drop_last(), keep_markers)
    } else {
        s
    }
}

/// `s` without leading and trailing strippable characters
/// (`str::trim_matches`).
pub open spec fn strip_punct(s: Seq<char>, keep_markers: bool) -> Seq<char> {
    strip_end(strip_start(s, keep_markers), keep_markers)
}

proof fn lemma_strip_start_skip(s: Seq<char>, i: int, keep: bool)
    requires
        0 <= i <= s.len(),
        forall|j: int| 0 <= j < i ==> strippable(#[trigger] s[j], keep),
    ensures
        strip_start(s, keep) == strip_start(s.skip(i), keep),
    decreases i,
{
    if i > 0 {
        lemma_strip_start_skip(s.drop_first(), i - 1, keep);
        assert(s.drop_first().skip(i - 1) =~= s.skip(i));
    } else {
        assert(s.skip(0) =~= s);
    }
}

proof fn lemma_strip_end_take(s: Seq<char>, k: int, keep: bool)
    requires
        0 <= k <= s.len(),
        forall|j: int| k <= j < s.len() ==> strippable(#[trigger] s[j], keep),
    ensures
        strip_end(s, keep) == strip_end(s.take(k), keep),
    decreases s.len() - k,
{
    if k < s.len() {
        lemma_strip_end_take(s.drop_last(), k, keep);
        assert(s.drop_last().take(k) =~= s.take(k));
    } else {
        assert(s.take(k) =~= s);
    }
}

fn strippable_exec(c: char, keep_markers: bool) -> (r: bool)
    ensures
        r == strippable(c, keep_markers),
{
    ascii_punct(c) && !(keep_markers && (c == '#' || c == '@' || c == '.'))
}

/// Copy of `s` without leading and trailing strippable characters.
fn strip_punct_chars(s: &Vec<char>, keep_markers: bool) -> (r: Vec<char>)
    ensures
        r@ == strip_punct(s@, keep_markers),
{
    let n = s.len();
    let mut i: usize = 0;
    while i < n && strippable_exec(s[i], keep_markers)
        invariant
            n == s.len(),
            i <= n,
            forall|j: int| 0 <= j < i ==> strippable(#[trigger] s@[j], keep_markers),
        decreases n - i,
    {
        i = i + 1;
    }
    proof {
        lemma_strip_start_skip(s@, i as int, keep_markers);
    }
    let ghost rest = s@.skip(i as int);
    assert(strip_start(rest, keep_markers) == rest);
    let mut k: usize = n;
    while k > i && strippable_exec(s[k - 1], keep_markers)
        invariant
            n == s.len(),
            i <= k <= n,
            forall|j: int| k <= j < n ==> strippable(#[trigger] s@[j], keep_markers),
        decreases k,
    {
        k = k - 1;
    }
    let mut r: Vec<char> = Vec::new();
    let mut j: usize = i;
    while j < k
        invariant
            n == s.len(),
            i <= j <= k <= n,
            r@ == s@.subrange(i as int, j as int),
        decreases k - j,
    {
        r.push(s[j]);
        j = j + 1;
        proof {
            assert(r@ =~= s@.subrange(i as int, j as int));
        }
    }
    proof {
        lemma_strip_end_take(rest, k - i, keep_markers);
        assert(rest.take(k - i) =~= r@);
    }
    r
}

/// Scan for quoted phrases: having read `q[..i]`, inside a quote or not,
/// with `cur` the text of the open quote and `acc` the phrases so far.
pub open spec fn quoted_from(
    q: Seq<char>,
    i: int,
    in_quote: bool,
    cur: Seq<char>,
    acc: Seq<Seq<char>>,
) -> Seq<Seq<char>>
    decreases q.len() - i,
{
    if i >= q.len() {
        acc
    } else if q[i] == '"' {
        quoted_from(
            q,
            i + 1,
            !in_quote,
            Seq::empty(),
            if in_quote && trim(cur).len() > 0 {
                acc.push(trim(cur))
            } else {
                acc
            },
        )
    } else if in_quote {
        quoted_from(q, i + 1, true, cur.push(q[i]), acc)
    } else {
        quoted_from(q, i + 1, false, cur, acc)
    }
}

/// The trimmed, non-empty texts enclosed by pairs of double quotes, in order.
pub open spec fn quoted(q: Seq<char>) -> Seq<Seq<char>> {
    quoted_from(q, 0, false, Seq::empty(), Seq::empty())
}

/// The trimmed, non-empty phrases between pairs of double quotes.
pub fn quoted_phrases(query: &Vec<char>) -> (r: Vec<Vec<char>>)
    ensures
        words(r@) == quoted(query@),
{
    let mut phrases: Vec<Vec<char>> = Vec::new();
    let mut current: Vec<char> = Vec::new();
    let mut in_quote = false;
    let mut i: usize = 0;
    proof {
        assert(words(phrases@) =~= Seq::<Seq<char>>::empty());
    }
    while i < query.len()
        invariant
            i <= query.len(),
            quoted_from(query@, i as int, in_quote, current@, words(phrases@)) == quoted(query@),
        decreases query.len() - i,
    {
        let c = query[i];
        if c == '"' {
            let t = trim_chars(&current);
            if in_quote && t.len() > 0 {
                let ghost before = words(phrases@);
                phrases.push(t);
                proof {
                    assert(words(phrases@) =~= before.push(trim(current@)));
                }
            }
            current = Vec::new();
            in_quote = !in_quote;
            proof {
                assert(current@ =~= Seq::<char>::empty());
            }
        } else if in_quote {
            current.push(c);
        }
        i = i + 1;
    }
    phrases
}

/// Scan for proper-noun phrases over the words `ws`: having read `ws[..i]`,
/// with `cur` the capitalized tokens of the current run.
pub open spec fn proper_from(
    ws: Seq<Seq<char>>,
    i: int,
    cur: Seq<Seq<char>>,
    acc: Seq<Seq<char>>,
) -> Seq<Seq<char>>
    decreases ws.len() - i,
{
    if i >= ws.len() {
        if cur.len() > 1 {
            acc.push(join(cur, seq![' ']))
        } else {
            acc
        }
    } else {
        let t = strip_punct(ws[i], false);
        if t.len() > 0 && is_ascii_upper(t[0]) {
            proper_from(ws, i + 1, cur.push(t), acc)
        } else {
            proper_from(
                ws,
                i + 1,
                Seq::empty(),
                if cur.len() > 1 {
                    acc.push(join(cur, seq![' ']))
                } else {
                    acc
                },
            )
        }
    }
}

/// Runs of two or more consecutive words that start with an ASCII capital
/// (after trimming punctuation), each joined with single spaces.
pub open spec fn proper_nouns(q: Seq<char>) -> Seq<Seq<char>> {
    proper_from(split_ws(q), 0, Seq::empty(), Seq::empty())
}

fn space() -> (r: Vec<char>)
    ensures
        r@ == seq![' '],
{
    let mut sep: Vec<char> = Vec::new();
    sep.push(' ');
    proof {
        assert(sep@ =~= seq![' ']);
    }
    sep
}

/// The proper-noun phrases of a query.
pub fn proper_noun_phrases(query: &Vec<char>) -> (r: Vec<Vec<char>>)
    ensures
        words(r@) == proper_nouns(query@),
{
    let ws = split_whitespace(query);
    let sep = space();
    let mut phrases: Vec<Vec<char>> = Vec::new();
    let mut current: Vec<Vec<char>> = Vec::new();
    let mut i: usize = 0;
    proof {
        assert(words(phrases@) =~= Seq::<Seq<char>>::empty());
        assert(words(current@) =~= Seq::<Seq<char>>::empty());
    }
    while i < ws.len()
        invariant
            i <= ws.len(),
            words(ws@) == split_ws(query@),
            sep@ == seq![' '],
            proper_from(words(ws@), i as int, words(current@), words(phrases@)) == proper_nouns(
                query@,
            ),
        decreases ws.len() - i,
    {
        let token = strip_punct_chars(&ws[i], false);
        if token.len() > 0 && ascii_upper(token[0]) {
            let ghost before = words(current@);
            current.push(token);
            proof {
                assert(words(current@) =~= before.push(strip_punct(ws@[i as int]@, false)));
            }
        } else {
            if current.len() > 1 {
                let phrase = join_chars(&current, &sep);
                let ghost before = words(phrases@);
                phrases.push(phrase);
                proof {
                    assert(words(phrases@) =~= before.push(join(words(current@), seq![' '])));
                }
            }
            current = Vec::new();
            proof {
                assert(words(current@) =~= Seq::<Seq<char>>::empty());
            }
        }
        i = i + 1;
    }
    if current.len() > 1 {
        let phrase = join_chars(&current, &sep);
        let ghost before = words(phrases@);
        phrases.push(phrase);
        proof {
            assert(words(phrases@) =~= before.push(join(words(current@), seq![' '])));
        }
    }
    phrases
}

/// A token that looks like an identifier: it holds `_`, `-` or `/`, or it
/// holds both an ASCII digit and an ASCII letter.
pub open spec fn looks_like_id(t: Seq<char>) -> bool {
    (exists|j: int| 0 <= j < t.len() && (t[j] == '_' || t[j] == '-' || t[j] == '/')) || ((exists|
        j: int,
    | 0 <= j < t.len() && is_ascii_digit(t[j])) && (exists|j: int|
        0 <= j < t.len() && is_ascii_alpha(t[j])))
}

/// Whether a token looks like an identifier.
pub fn looks_like_identifier(token: &Vec<char>) -> (r: bool)
    ensures
        r == looks_like_id(token@),
{
    let mut sep = false;
    let mut digit = false;
    let mut alpha = false;
    let mut i: usize = 0;
    while i < token.len()
        invariant
            i <= token.len(),
            sep == (exists|j: int|
                0 <= j < i && (token@[j] == '_' || token@[j] == '-' || token@[j] == '/')),
            digit == (exists|j: int| 0 <= j < i && is_ascii_digit(token@[j])),
            alpha == (exists|j: int| 0 <= j < i && is_ascii_alpha(token@[j])),
        decreases token.len() - i,
    {
        let c = token[i];
        if c == '_' || c == '-' || c == '/' {
            sep = true;
        }
        if ascii_digit(c) {
            digit = true;
        }
        if ascii_alpha(c) {
            alpha = true;
        }
        i = i + 1;
    }
    sep || (digit && alpha)
}

/// The entity a whitespace-separated token stands for, if any: an e-mail
/// address, a hashtag, a file type, or an identifier.
pub open spec fn token_entity(t: Seq<char>) -> Option<(QueryEntityKind, Seq<char>)> {
    if t.len() == 0 {
        None
    } else if t.contains('@') && t.contains('.') {
        Some((QueryEntityKind::Email, lowercase(t)))
    } else if t[0] == '#' {
        if t.len() > 1 {
            Some((QueryEntityKind::Hashtag, lowercase(t.drop_first())))
        } else {
            None
        }
    } else if t[0] == '.' && t.len() > 1 && (forall|j: int|
        1 <= j < t.len() ==> is_ascii_alnum(#[trigger] t[j])) {
        Some((QueryEntityKind::FileType, lowercase(t.drop_first())))
    } else if looks_like_id(t) {
        Some((QueryEntityKind::Identifier, t))
    } else {
        None
    }
}

/// `ents` with the entity `(kind, trim(value))` added, unless that value is
/// empty or the entity is already there.
pub open spec fn add_entity(
    ents: Seq<(QueryEntityKind, Seq<char>)>,
    kind: QueryEntityKind,
    value: Seq<char>,
) -> Seq<(QueryEntityKind, Seq<char>)> {
    let v = trim(value);
    if v.len() > 0 && !ents.contains((kind, v)) {
        ents.push((kind, v))
    } else {
        ents
    }
}

/// `ents` with an entity of kind `kind` added for each of `values`, in order.
pub open spec fn add_entities(
    ents: Seq<(QueryEntityKind, Seq<char>)>,
    kind: QueryEntityKind,
    values: Seq<Seq<char>>,
) -> Seq<(QueryEntityKind, Seq<char>)>
    decreases values.len(),
{
    if values.len() == 0 {
        ents
    } else {
        add_entity(add_entities(ents, kind, values.drop_last()), kind, values.last())
    }
}

/// `ents` with the entity of each of the whitespace-separated `tokens` added,
/// in order.
pub open spec fn add_token_entities(
    ents: Seq<(QueryEntityKind, Seq<char>)>,
    tokens: Seq<Seq<char>>,
) -> Seq<(QueryEntityKind, Seq<char>)>
    decreases tokens.len(),
{
    if tokens.len() == 0 {
        ents
    } else {
        let prev = add_token_entities(ents, tokens.drop_last());
        match token_entity(strip_punct(tokens.last(), true)) {
            Some((kind, value)) => add_entity(prev, kind, value),
            None => prev,
        }
    }
}

/// The entities of a query, without repetition: its quoted phrases, then
/// the entity of each token, then its proper-noun phrases.
pub open spec fn entities_of(q: Seq<char>) -> Seq<(QueryEntityKind, Seq<char>)> {
    let quoted_ents = add_entities(Seq::empty(), QueryEntityKind::QuotedPhrase, quoted(q));
    let token_ents = add_token_entities(quoted_ents, split_ws(q));
    add_entities(token_ents, QueryEntityKind::ProperNoun, proper_nouns(q))
}

fn has_char(t: &Vec<char>, c: char) -> (r: bool)
    ensures
        r == t@.contains(c),
{
    let mut i: usize = 0;
    while i < t.len()
        invariant
            i <= t.len(),
            forall|j: int| 0 <= j < i ==> t@[j] != c,
        decreases t.len() - i,
    {
        if t[i] == c {
            assert(t@[i as int] == c);
            return true;
        }
        i = i + 1;
    }
    false
}

fn tail_chars(t: &Vec<char>) -> (r: Vec<char>)
    requires
        t.len() > 0,
    ensures
        r@ == t@.drop_first(),
{
    let mut r: Vec<char> = Vec::new();
    let mut i: usize = 1;
    while i < t.len()
        invariant
            1 <= i <= t.len(),
            r@ == t@.subrange(1, i as int),
        decreases t.len() - i,
    {
        r.push(t[i]);
        i = i + 1;
        proof {
            assert(r@ =~= t@.subrange(1, i as int));
        }
    }
    proof {
        assert(t@.subrange(1, t.len() as int) =~= t@.drop_first());
    }
    r
}

fn lowercase_chars(t: &Vec<char>) -> (r: Vec<char>)
    ensures
        r@ == lowercase(t@),
{
    let s = string_of(t);
    let l = to_lowercase(s.as_str());
    chars_of(l.as_str())
}

fn all_ascii_alnum_after_first(t: &Vec<char>) -> (r: bool)
    ensures
        r == (forall|j: int| 1 <= j < t.len() ==> is_ascii_alnum(#[trigger] t@[j])),
{
    let mut i: usize = 1;
    while i < t.len()
        invariant
            1 <= i,
            forall|j: int| 1 <= j < i && j < t.len() ==> is_ascii_alnum(#[trigger] t@[j]),
        decreases t.len() - i,
    {
        if !ascii_alnum(t[i]) {
            return false;
        }
        i = i + 1;
    }
    true
}

/// The entity a token stands for, if any.
fn classify_token(t: &Vec<char>) -> (r: Option<(QueryEntityKind, Vec<char>)>)
    ensures
        match r {
            Some((k, v)) => token_entity(t@) == Some((k, v@)),
            None => token_entity(t@) is None,
        },
{
    if t.len() == 0 {
        None
    } else if has_char(t, '@') && has_char(t, '.') {
        Some((QueryEntityKind::Email, lowercase_chars(t)))
    } else if t[0] == '#' {
        if t.len() > 1 {
            let tag = tail_chars(t);
            Some((QueryEntityKind::Hashtag, lowercase_chars(&tag)))
        } else {
            None
        }
    } else if t[0] == '.' && t.len() > 1 && all_ascii_alnum_after_first(t) {
        let ext = tail_chars(t);
        Some((QueryEntityKind::FileType, lowercase_chars(&ext)))
    } else if looks_like_identifier(t) {
        Some((QueryEntityKind::Identifier, copy_chars(t)))
    } else {
        None
    }
}

/// The kinds and values of a vector of entities under construction.
pub open spec fn pair_views(es: Seq<(QueryEntityKind, Vec<char>)>) -> Seq<
    (QueryEntityKind, Seq<char>),
> {
    es.map_values(|e: (QueryEntityKind, Vec<char>)| (e.0, e.1@))
}

/// Whether the entity `(kind, v)` is among `entities`.
fn contains_entity(entities: &Vec<(QueryEntityKind, Vec<char>)>, kind: QueryEntityKind, v: &Vec<char>) -> (r: bool)
    ensures
        r == pair_views(entities@).contains((kind, v@)),
{
    let mut i: usize = 0;
    while i < entities.len()
        invariant
            i <= entities.len(),
            forall|j: int| 0 <= j < i ==> pair_views(entities@)[j] != (kind, v@),
        decreases entities.len() - i,
    {
        if entities[i].0 == kind && chars_eq(&entities[i].1, v) {
            proof {
                assert(pair_views(entities@)[i as int] == (kind, v@));
            }
            return true;
        }
        i = i + 1;
    }
    proof {
        let pv = pair_views(entities@);
        if pv.contains((kind, v@)) {
            let j = choose|j: int| 0 <= j < pv.len() && pv[j] == (kind, v@);
            assert(pv[j] != (kind, v@));
        }
    }
    false
}

/// Adds the entity `(kind, trim(value))` unless it is empty or present.
fn push_entity(entities: &mut Vec<(QueryEntityKind, Vec<char>)>, kind: QueryEntityKind, value: &Vec<char>)
    ensures
        pair_views(final(entities)@) == add_entity(pair_views(old(entities)@), kind, value@),
{
    let v = trim_chars(value);
    if v.len() == 0 {
        return;
    }
    if contains_entity(entities, kind, &v) {
        return;
    }
    let ghost before = pair_views(entities@);
    entities.push((kind, v));
    proof {
        assert(pair_views(entities@) =~= before.push((kind, trim(value@))));
    }
}

/// Adds an entity of kind `kind` for each of `values`, in order.
fn push_entities(entities: &mut Vec<(QueryEntityKind, Vec<char>)>, kind: QueryEntityKind, values: &Vec<Vec<char>>)
    ensures
        pair_views(final(entities)@) == add_entities(pair_views(old(entities)@), kind, words(values@)),
{
    let ghost start = pair_views(entities@);
    let mut i: usize = 0;
    proof {
        assert(words(values@).take(0) =~= Seq::<Seq<char>>::empty());
    }
    while i < values.len()
        invariant
            i <= values.len(),
            pair_views(entities@) == add_entities(start, kind, words(values@).take(i as int)),
        decreases values.len() - i,
    {
        push_entity(entities, kind, &values[i]);
        proof {
            assert(words(values@).take(i + 1).drop_last() =~= words(values@).take(i as int));
        }
        i = i + 1;
    }
    proof {
        assert(words(values@).take(values.len() as int) =~= words(values@));
    }
}

/// Extracts the entities of a query: quoted phrases, e-mail addresses,
/// hashtags, file types, identifiers and proper-noun phrases, each once.
pub fn extract_entities(query: &str) -> (r: Vec<QueryEntity>)
    ensures
        entity_views(r@) == entities_of(query@),
{
    let q = chars_of(query);
    let mut entities: Vec<(QueryEntityKind, Vec<char>)> = Vec::new();
    let quoted_list = quoted_phrases(&q);
    proof {
        assert(pair_views(entities@) =~= Seq::<(QueryEntityKind, Seq<char>)>::empty());
    }
    push_entities(&mut entities, QueryEntityKind::QuotedPhrase, &quoted_list);
    let ghost after_quoted = pair_views(entities@);
    let ws = split_whitespace(&q);
    let mut i: usize = 0;
    proof {
        assert(words(ws@).take(0) =~= Seq::<Seq<char>>::empty());
    }
    while i < ws.len()
        invariant
            i <= ws.len(),
            words(ws@) == split_ws(q@),
            pair_views(entities@) == add_token_entities(after_quoted, words(ws@).take(i as int)),
        decreases ws.len() - i,
    {
        let token = strip_punct_chars(&ws[i], true);
        proof {
            assert(words(ws@).take(i + 1).drop_last() =~= words(ws@).take(i as int));
            assert(words(ws@).take(i + 1).last() == ws@[i as int]@);
        }
        match classify_token(&token) {
            Some((kind, value)) => {
                push_entity(&mut entities, kind, &value);
            },
            None => {},
        }
        i = i + 1;
    }
    proof {
        assert(words(ws@).take(ws.len() as int) =~= words(ws@));
    }
    let proper = proper_noun_phrases(&q);
    push_entities(&mut entities, QueryEntityKind::ProperNoun, &proper);
    let mut r: Vec<QueryEntity> = Vec::new();
    let mut j: usize = 0;
    while j < entities.len()
        invariant
            j <= entities.len(),
            pair_views(entities@) == entities_of(q@),
            entity_views(r@) == pair_views(entities@).take(j as int),
        decreases entities.len() - j,
    {
        let value = string_of(&entities[j].1);
        let e = QueryEntity { kind: entities[j].0, value };
        let ghost before = r@;
        let ghost ev = entity_view(e);
        assert(ev == pair_views(entities@)[j as int]);
        r.push(e);
        proof {
            assert(entity_views(r@) =~= entity_views(before).push(ev));
            assert(entity_views(r@) =~= pair_views(entities@).take(j + 1));
        }
        j = j + 1;
    }
    proof {
        assert(pair_views(entities@).take(entities.len() as int) =~= pair_views(entities@));
    }
    r
}

// ---------------------------------------------------------------------------
// Collection selection
// ---------------------------------------------------------------------------

/// The character sequences of a slice of string slices.
pub open spec fn strs(v: Seq<&str>) -> Seq<Seq<char>> {
    v.map_values(|s: &str| s@)
}

/// The normalized forms of `ts` that are not empty, in order.
pub open spec fn normalized_terms(ts: Seq<Seq<char>>) -> Seq<Seq<char>>
    decreases ts.len(),
{
    if ts.len() == 0 {
        Seq::empty()
    } else if normalize(ts.last()).len() > 0 {
        normalized_terms(ts.drop_last()).push(normalize(ts.last()))
    } else {
        normalized_terms(ts.drop_last())
    }
}

/// Normalized, non-empty strings for each of `terms`.
pub fn normalize_terms(terms: &[&str]) -> (r: Vec<String>)
    ensures
        strings(r@) == normalized_terms(strs(terms@)),
{
    let mut r: Vec<String> = Vec::new();
    let mut i: usize = 0;
    proof {
        assert(strings(r@) =~= normalized_terms(strs(terms@).take(0)));
    }
    while i < terms.len()
        invariant
            i <= terms.len(),
            strings(r@) == normalized_terms(strs(terms@).take(i as int)),
        decreases terms.len() - i,
    {
        let n = normalize_query_text(terms[i]);
        proof {
            assert(strs(terms@).take(i + 1).drop_last() =~= strs(terms@).take(i as int));
            assert(strs(terms@).take(i + 1).last() == terms@[i as int]@);
        }
        if n.as_str().is_empty() == false {
            let ghost before = r@;
            r.push(n);
            proof {
                assert(strings(r@) =~= strings(before).push(n@));
            }
        }
        i = i + 1;
    }
    proof {
        assert(strs(terms@).take(terms.len() as int) =~= strs(terms@));
    }
    r
}

/// Routes queries that mention one of its terms to a collection.
#[derive(Debug, Clone)]
pub struct CollectionRule {
    collection: String,
    terms: Vec<String>,
}

impl View for CollectionRule {
    type V = (Seq<char>, Seq<Seq<char>>);

    closed spec fn view(&self) -> (Seq<char>, Seq<Seq<char>>) {
        (self.collection@, strings(self.terms@))
    }
}

impl CollectionRule {
    /// A rule for `collection` whose terms are the normalized, non-empty
    /// forms of `terms`.
    pub fn new(collection: &str, terms: &[&str]) -> (r: Self)
        ensures
            r@ == (collection@, normalized_terms(strs(terms@))),
    {
        CollectionRule { collection: collection.to_owned(), terms: normalize_terms(terms) }
    }
}

/// A rule matches when one of its terms occurs in the normalized query or
/// equals the value of one of its entities.
pub open spec fn rule_matches(
    terms: Seq<Seq<char>>,
    normalized: Seq<char>,
    entity_values: Seq<Seq<char>>,
) -> bool {
    exists|i: int|
        0 <= i < terms.len() && (contains_seq(normalized, #[trigger] terms[i])
            || entity_values.contains(terms[i]))
}

/// The collections of the matching rules, in rule order, each once.
pub open spec fn matched_collections(
    rules: Seq<(Seq<char>, Seq<Seq<char>>)>,
    normalized: Seq<char>,
    entity_values: Seq<Seq<char>>,
) -> Seq<Seq<char>>
    decreases rules.len(),
{
    if rules.len() == 0 {
        Seq::empty()
    } else {
        let prev = matched_collections(rules.drop_last(), normalized, entity_values);
        let rule = rules.last();
        if rule_matches(rule.1, normalized, entity_values) && !prev.contains(rule.0) {
            prev.push(rule.0)
        } else {
            prev
        }
    }
}

/// The collections to search: those of the matching rules, or the default
/// collections when no rule matches.
pub open spec fn selected_collections(
    defaults: Seq<Seq<char>>,
    rules: Seq<(Seq<char>, Seq<Seq<char>>)>,
    normalized: Seq<char>,
    entity_values: Seq<Seq<char>>,
) -> Seq<Seq<char>> {
    let matched = matched_collections(rules, normalized, entity_values);
    if matched.len() == 0 {
        defaults
    } else {
        matched
    }
}

/// The values of a sequence of entities.
pub open spec fn entity_values(es: Seq<QueryEntity>) -> Seq<Seq<char>> {
    es.map_values(|e: QueryEntity| e.value@)
}

/// The views of a sequence of rules.
pub open spec fn rule_views(rules: Seq<CollectionRule>) -> Seq<(Seq<char>, Seq<Seq<char>>)> {
    rules.map_values(|r: CollectionRule| r@)
}

/// A query after analysis.
#[derive(Debug, Clone, PartialEq, Eq)]
pub struct AnalyzedQuery {
    pub original: String,
    pub normalized: String,
    pub intent: QueryIntent,
    pub entities: Vec<QueryEntity>,
    pub selected_collections: Vec<String>,
}

/// Analyzes queries against default collections and routing rules.
#[derive(Debug, Clone)]
pub struct QueryAnalyzer {
    default_collections: Vec<String>,
    collection_rules: Vec<CollectionRule>,
}

impl View for QueryAnalyzer {
    type V = (Seq<Seq<char>>, Seq<(Seq<char>, Seq<Seq<char>>)>);

    closed spec fn view(&self) -> (Seq<Seq<char>>, Seq<(Seq<char>, Seq<Seq<char>>)>) {
        (strings(self.default_collections@), rule_views(self.collection_rules@))
    }
}

impl QueryAnalyzer {
    /// An analyzer with the given default collections and no rules.
    pub fn new(default_collections: &[&str]) -> (r: Self)
        ensures
            r@ == (strs(default_collections@), Seq::<(Seq<char>, Seq<Seq<char>>)>::empty()),
    {
        let mut defaults: Vec<String> = Vec::new();
        let mut i: usize = 0;
        while i < default_collections.len()
            invariant
                i <= default_collections.len(),
                strings(defaults@) == strs(default_collections@).take(i as int),
            decreases default_collections.len() - i,
        {
            let c = default_collections[i].to_owned();
            let ghost before = defaults@;
            defaults.push(c);
            proof {
                assert(strings(defaults@) =~= strings(before).push(c@));
                assert(strs(default_collections@).take(i + 1) =~= strs(default_collections@).take(
                    i as int,
                ).push(default_collections@[i as int]@));
            }
            i = i + 1;
        }
        proof {
            assert(strs(default_collections@).take(default_collections.len() as int) =~= strs(
                default_collections@,
            ));
        }
        let rules: Vec<CollectionRule> = Vec::new();
        proof {
            assert(rule_views(rules@) =~= Seq::<(Seq<char>, Seq<Seq<char>>)>::empty());
        }
        QueryAnalyzer { default_collections: defaults, collection_rules: rules }
    }

    /// This analyzer with `rule` added after its other rules.
    pub fn with_collection_rule(self, rule: CollectionRule) -> (r: Self)
        ensures
            r@ == (self@.0, self@.1.push(rule@)),
    {
        let mut s = self;
        let ghost before = s.collection_rules@;
        let ghost rv = rule@;
        s.collection_rules.push(rule);
        proof {
            assert(rule_views(s.collection_rules@) =~= rule_views(before).push(rv));
        }
        s
    }

    /// Analyzes a query: its normalized form, intent, entities and the
    /// collections it should be searched in.
    pub fn analyze(&self, query: &str) -> (r: AnalyzedQuery)
        ensures
            r.original@ == query@,
            r.normalized@ == normalize(query@),
            r.intent == intent_of(query@, normalize(query@)),
            entity_views(r.entities@) == entities_of(query@),
            strings(r.selected_collections@) == selected_collections(
                self@.0,
                self@.1,
                normalize(query@),
                entity_values(r.entities@),
            ),
    {
        let normalized = normalize_query_text(query);
        let intent = detect_intent(query, normalized.as_str());
        let entities = extract_entities(query);
        let selected = self.select_collections(normalized.as_str(), &entities);
        AnalyzedQuery {
            original: query.to_owned(),
            normalized,
            intent,
            entities,
            selected_collections: selected,
        }
    }

    fn select_collections(&self, normalized: &str, entities: &Vec<QueryEntity>) -> (r: Vec<String>)
        ensures
            strings(r@) == selected_collections(
                self@.0,
                self@.1,
                normalized@,
                entity_values(entities@),
            ),
    {
        let n = chars_of(normalized);
        let ghost ev = entity_values(entities@);
        let rules = &self.collection_rules;
        let mut selected: Vec<String> = Vec::new();
        let mut i: usize = 0;
        proof {
            assert(rule_views(rules@).take(0) =~= Seq::<(Seq<char>, Seq<Seq<char>>)>::empty());
        }
        while i < rules.len()
            invariant
                i <= rules.len(),
                rules == &self.collection_rules,
                n@ == normalized@,
                ev == entity_values(entities@),
                strings(selected@) == matched_collections(rule_views(rules@).take(i as int), n@, ev),
            decreases rules.len() - i,
        {
            let rule = &rules[i];
            let matches_rule = rule_matches_exec(&rule.terms, &n, entities);
            proof {
                assert(rule_views(rules@).take(i + 1).drop_last() =~= rule_views(rules@).take(
                    i as int,
                ));
                assert(rule_views(rules@).take(i + 1).last() == rule@);
            }
            if matches_rule && !contains_string(&selected, &rule.collection) {
                let c = rule.collection.clone();
                let ghost before = selected@;
                selected.push(c);
                proof {
                    assert(strings(selected@) =~= strings(before).push(c@));
                }
            }
            i = i + 1;
        }
        proof {
            assert(rule_views(rules@).take(rules.len() as int) =~= rule_views(rules@));
        }
        if selected.len() == 0 {
            copy_strings(&self.default_collections)
        } else {
            selected
        }
    }
}

impl Default for QueryAnalyzer {
    /// An analyzer whose only default collection is `default`.
    fn default() -> (r: Self)
        ensures
            r@ == (seq!["default"@], Seq::<(Seq<char>, Seq<Seq<char>>)>::empty()),
    {
        let r = QueryAnalyzer::new(&["default"]);
        proof {
            assert(strs(seq!["default"]) =~= seq!["default"@]);
        }
        r
    }
}

fn rule_matches_exec(terms: &Vec<String>, n: &Vec<char>, entities: &Vec<QueryEntity>) -> (r: bool)
    ensures
        r == rule_matches(strings(terms@), n@, entity_values(entities@)),
{
    let mut i: usize = 0;
    while i < terms.len()
        invariant
            i <= terms.len(),
            forall|j: int|
                0 <= j < i ==> !(contains_seq(n@, #[trigger] strings(terms@)[j])
                    || entity_values(entities@).contains(strings(terms@)[j])),
        decreases terms.len() - i,
    {
        let t = chars_of(terms[i].as_str());
        let hit = contains_chars(n, &t) || contains_entity_value(entities, &terms[i]);
        if hit {
            proof {
                assert(strings(terms@)[i as int] == terms@[i as int]@);
            }
            return true;
        }
        i = i + 1;
    }
    false
}

fn contains_entity_value(entities: &Vec<QueryEntity>, v: &String) -> (r: bool)
    ensures
        r == entity_values(entities@).contains(v@),
{
    let mut i: usize = 0;
    while i < entities.len()
        invariant
            i <= entities.len(),
            forall|j: int| 0 <= j < i ==> entity_values(entities@)[j] != v@,
        decreases entities.len() - i,
    {
        if entities[i].value == *v {
            assert(entity_values(entities@)[i as int] == v@);
            return true;
        }
        i = i + 1;
    }
    proof {
        let ev = entity_values(entities@);
        if ev.contains(v@) {
            let j = choose|j: int| 0 <= j < ev.len() && ev[j] == v@;
            assert(ev[j] != v@);
        }
    }
    false
}

/// Whether one of `v` holds the characters of `s`.
pub fn contains_string(v: &Vec<String>, s: &String) -> (r: bool)
    ensures
        r == strings(v@).contains(s@),
{
    let mut i: usize = 0;
    while i < v.len()
        invariant
            i <= v.len(),
            forall|j: int| 0 <= j < i ==> strings(v@)[j] != s@,
        decreases v.len() - i,
    {
        if v[i] == *s {
            assert(strings(v@)[i as int] == s@);
            return true;
        }
        i = i + 1;
    }
    proof {
        let sv = strings(v@);
        if sv.contains(s@) {
            let j = choose|j: int| 0 <= j < sv.len() && sv[j] == s@;
            assert(sv[j] != s@);
        }
    }
    false
}

/// A copy of a vector of strings.
pub fn copy_strings(v: &Vec<String>) -> (r: Vec<String>)
    ensures
        strings(r@) == strings(v@),
{
    let mut r: Vec<String> = Vec::new();
    let mut i: usize = 0;
    while i < v.len()
        invariant
            i <= v.len(),
            strings(r@) == strings(v@).take(i as int),
        decreases v.len() - i,
    {
        let c = v[i].clone();
        let ghost before = r@;
        r.push(c);
        proof {
            assert(strings(r@) =~= strings(before).push(c@));
            assert(strings(v@).take(i + 1) =~= strings(v@).take(i as int).push(v@[i as int]@));
        }
        i = i + 1;
    }
    proof {
        assert(strings(v@).take(v.len() as int) =~= strings(v@));
    }
    r
}

// ---------------------------------------------------------------------------
// Strings and character vectors
// ---------------------------------------------------------------------------

/// The character sequences held by a vector of strings.
pub open spec fn strings(v: Seq<String>) -> Seq<Seq<char>> {
    v.map_values(|s: String| s@)
}

/// Strings holding the given character vectors.
pub fn strings_of(v: &Vec<Vec<char>>) -> (r: Vec<String>)
    ensures
        strings(r@) == words(v@),
{
    let mut r: Vec<String> = Vec::new();
    let mut i: usize = 0;
    while i < v.len()
        invariant
            i <= v.len(),
            strings(r@) == words(v@).take(i as int),
        decreases v.len() - i,
    {
        let s = string_of(&v[i]);
        let ghost before = r@;
        r.push(s);
        proof {
            assert(r@ == before.push(s));
            assert(strings(r@) =~= strings(before).push(s@));
            assert(words(v@).take(i + 1) =~= words(v@).take(i as int).push(v@[i as int]@));
        }
        i = i + 1;
    }
    proof {
        assert(words(v@).take(v.len() as int) =~= words(v@));
    }
    r
}

proof fn lemma_search_tokens(ws: Seq<Seq<char>>)
    ensures
        forall|i: int|
            0 <= i < search_tokens(ws).len() ==> is_search_token(#[trigger] search_tokens(ws)[i]),
    decreases ws.len(),
{
    if ws.len() > 0 {
        lemma_search_tokens(ws.drop_last());
        let prev = search_tokens(ws.drop_last());
        if is_search_token(ws.last()) {
            assert forall|i: int| 0 <= i < prev.push(ws.last()).len() implies is_search_token(
                #[trigger] prev.push(ws.last())[i],
            ) by {
                if i < prev.len() {
                    assert(prev.push(ws.last())[i] == prev[i]);
                }
            }
        }
    }
}

/// Every token of a query is a search token: more than one byte long and
/// not a stop word.
pub proof fn law_tokens_are_search_tokens(normalized: Seq<char>)
    ensures
        forall|i: int|
            0 <= i < tokens_of(normalized).len() ==> is_search_token(#[trigger] tokens_of(normalized)[i]),
{
    lemma_search_tokens(split_ws(normalized));
}

proof fn lemma_matched_collections(
    rules: Seq<(Seq<char>, Seq<Seq<char>>)>,
    normalized: Seq<char>,
    entity_values: Seq<Seq<char>>,
)
    ensures
        matched_collections(rules, normalized, entity_values).no_duplicates(),
        forall|c: Seq<char>|
            #[trigger] matched_collections(rules, normalized, entity_values).contains(c) <==> exists|i: int|
                0 <= i < rules.len() && rules[i].0 == c && rule_matches(
                    rules[i].1,
                    normalized,
                    entity_values,
                ),
    decreases rules.len(),
{
    if rules.len() > 0 {
        let init = rules.drop_last();
        lemma_matched_collections(init, normalized, entity_values);
        let prev = matched_collections(init, normalized, entity_values);
        let r = matched_collections(rules, normalized, entity_values);
        let last = rules.last();
        assert forall|c: Seq<char>|
            r.contains(c) <==> exists|i: int|
                0 <= i < rules.len() && rules[i].0 == c && rule_matches(
                    rules[i].1,
                    normalized,
                    entity_values,
                ) by {
            if r.contains(c) {
                if prev.contains(c) {
                    let i = choose|i: int|
                        0 <= i < init.len() && init[i].0 == c && rule_matches(
                            init[i].1,
                            normalized,
                            entity_values,
                        );
                    assert(rules[i] == init[i]);
                } else {
                    assert(c == last.0);
                    assert(rules[rules.len() - 1] == last);
                }
            }
            if exists|i: int|
                0 <= i < rules.len() && rules[i].0 == c && rule_matches(
                    rules[i].1,
                    normalized,
                    entity_values,
                ) {
                let i = choose|i: int|
                    0 <= i < rules.len() && rules[i].0 == c && rule_matches(
                        rules[i].1,
                        normalized,
                        entity_values,
                    );
                if i < init.len() {
                    assert(init[i] == rules[i]);
                    assert(prev.contains(c));
                    if r != prev {
                        assert(r =~= prev.push(last.0));
                        let j = choose|j: int| 0 <= j < prev.len() && prev[j] == c;
                        assert(r[j] == c);
                    }
                } else {
                    assert(rules[i] == last);
                    if !prev.contains(c) {
                        assert(r =~= prev.push(c));
                        assert(r[r.len() - 1] == c);
                    }
                }
            }
        }
        if rule_matches(last.1, normalized, entity_values) && !prev.contains(last.0) {
            assert forall|a: int, b: int| 0 <= a < r.len() && 0 <= b < r.len() && a != b implies r[a]
                != r[b] by {
                if a == prev.len() as int {
                    assert(prev[b] == r[b]);
                } else if b == prev.len() as int {
                    assert(prev[a] == r[a]);
                }
            }
        }
    }
}

/// The collections searched are each named once; they are those of the
/// rules that match (a rule matches when one of its terms occurs in the
/// query or is an entity of it), or, when none matches, the default ones;
/// so a query always has a collection when there are defaults.
pub proof fn law_selected_collections(
    defaults: Seq<Seq<char>>,
    rules: Seq<(Seq<char>, Seq<Seq<char>>)>,
    normalized: Seq<char>,
    entity_values: Seq<Seq<char>>,
)
    ensures
        ({
            let selected = selected_collections(defaults, rules, normalized, entity_values);
            &&& (exists|i: int|
                0 <= i < rules.len() && rule_matches(rules[i].1, normalized, entity_values)) ==> {
                &&& selected.no_duplicates()
                &&& forall|c: Seq<char>|
                    #[trigger] selected.contains(c) <==> exists|i: int|
                        0 <= i < rules.len() && rules[i].0 == c && rule_matches(
                            rules[i].1,
                            normalized,
                            entity_values,
                        )
            }
            &&& !(exists|i: int|
                0 <= i < rules.len() && rule_matches(rules[i].1, normalized, entity_values))
                ==> selected == defaults
            &&& defaults.len() > 0 ==> selected.len() > 0
        }),
{
    lemma_matched_collections(rules, normalized, entity_values);
    let m = matched_collections(rules, normalized, entity_values);
    if exists|i: int| 0 <= i < rules.len() && rule_matches(rules[i].1, normalized, entity_values) {
        let i = choose|i: int|
            0 <= i < rules.len() && rule_matches(rules[i].1, normalized, entity_values);
        assert(m.contains(rules[i].0));
    } else if m.len() > 0 {
        assert(m.contains(m[0]));
    }
}

/// Distinct entities whose values are non-empty and trimmed.
pub open spec fn sound_entities(es: Seq<(QueryEntityKind, Seq<char>)>) -> bool {
    &&& es.no_duplicates()
    &&& forall|i: int|
        0 <= i < es.len() ==> (#[trigger] es[i]).1.len() > 0 && trim(es[i].1) == es[i].1
}

proof fn lemma_add_entity_sound(
    ents: Seq<(QueryEntityKind, Seq<char>)>,
    kind: QueryEntityKind,
    value: Seq<char>,
)
    requires
        sound_entities(ents),
    ensures
        sound_entities(add_entity(ents, kind, value)),
{
    let v = trim(value);
    crate::text::lemma_trim_idempotent(value);
    if v.len() > 0 && !ents.contains((kind, v)) {
        let r = ents.push((kind, v));
        assert forall|a: int, b: int| 0 <= a < r.len() && 0 <= b < r.len() && a != b implies r[a]
            != r[b] by {
            if a == ents.len() as int {
                assert(ents[b] == r[b]);
            } else if b == ents.len() as int {
                assert(ents[a] == r[a]);
            }
        }
        assert forall|i: int| 0 <= i < r.len() implies (#[trigger] r[i]).1.len() > 0 && trim(r[i].1)
            == r[i].1 by {
            if i < ents.len() {
                assert(r[i] == ents[i]);
            }
        }
    }
}

proof fn lemma_add_entities_sound(
    ents: Seq<(QueryEntityKind, Seq<char>)>,
    kind: QueryEntityKind,
    values: Seq<Seq<char>>,
)
    requires
        sound_entities(ents),
    ensures
        sound_entities(add_entities(ents, kind, values)),
    decreases values.len(),
{
    if values.len() > 0 {
        lemma_add_entities_sound(ents, kind, values.drop_last());
        lemma_add_entity_sound(add_entities(ents, kind, values.drop_last()), kind, values.last());
    }
}

proof fn lemma_add_token_entities_sound(
    ents: Seq<(QueryEntityKind, Seq<char>)>,
    tokens: Seq<Seq<char>>,
)
    requires
        sound_entities(ents),
    ensures
        sound_entities(add_token_entities(ents, tokens)),
    decreases tokens.len(),
{
    if tokens.len() > 0 {
        lemma_add_token_entities_sound(ents, tokens.drop_last());
        let prev = add_token_entities(ents, tokens.drop_last());
        match token_entity(strip_punct(tokens.last(), true)) {
            Some((kind, value)) => lemma_add_entity_sound(prev, kind, value),
            None => {},
        }
    }
}

/// A query's entities are each listed once, and each has a non-empty,
/// trimmed value.
pub proof fn law_entities_distinct_and_trimmed(query: Seq<char>)
    ensures
        sound_entities(entities_of(query)),
{
    let e: Seq<(QueryEntityKind, Seq<char>)> = Seq::empty();
    lemma_add_entities_sound(e, QueryEntityKind::QuotedPhrase, quoted(query));
    let quoted_ents = add_entities(e, QueryEntityKind::QuotedPhrase, quoted(query));
    lemma_add_token_entities_sound(quoted_ents, split_ws(query));
    lemma_add_entities_sound(
        add_token_entities(quoted_ents, split_ws(query)),
        QueryEntityKind::ProperNoun,
        proper_nouns(query),
    );
}

/// What normalization leaves: a trimmed text with no two spaces in a row,
/// each of whose characters is a space, or a character other than
/// whitespace that normalization keeps (alphanumeric, `_`, `#` or `@`).
pub proof fn law_normalized_form(q: Seq<char>)
    ensures
        ({
            let r = normalize(q);
            &&& trim(r) == r
            &&& forall|i: int|
                0 <= i < r.len() ==> #[trigger] r[i] == ' ' || (!is_white_space(r[i]) && is_query_char(
                    r[i],
                ))
            &&& forall|i: int| 0 <= i < r.len() - 1 ==> !(#[trigger] r[i] == ' ' && r[i + 1] == ' ')
        }),
{
    let x = lowercase(trim(q)).map_values(|c: char| query_char(c));
    lemma_normal_shape(x);
}

proof fn lemma_normal_shape(x: Seq<char>)
    requires
        forall|m: int| 0 <= m < x.len() ==> #[trigger] x[m] == ' ' || is_query_char(x[m]),
    ensures
        ({
            let r = join(split_ws(x), seq![' ']);
            &&& trim(r) == r
            &&& forall|i: int|
                0 <= i < r.len() ==> #[trigger] r[i] == ' ' || (!is_white_space(r[i]) && is_query_char(
                    r[i],
                ) && x.contains(r[i]))
            &&& forall|i: int| 0 <= i < r.len() - 1 ==> !(#[trigger] r[i] == ' ' && r[i + 1] == ' ')
        }),
{
    let ws = split_ws(x);
    crate::text::lemma_split_ws_words(x);
    crate::text::lemma_join_shape(ws);
    let r = join(ws, seq![' ']);
    assert forall|i: int| 0 <= i < r.len() implies #[trigger] r[i] == ' ' || (!is_white_space(r[i])
        && is_query_char(r[i]) && x.contains(r[i])) by {
        if r[i] != ' ' {
            let (k, j) = choose|k: int, j: int| 0 <= k < ws.len() && 0 <= j < ws[k].len() && ws[k][j] == r[i];
            assert(!is_white_space(ws[k][j]));
            assert(x.contains(ws[k][j]));
            let m = choose|m: int| 0 <= m < x.len() && x[m] == ws[k][j];
            assert(x[m] == ' ' || is_query_char(x[m]));
        }
    }
    assert forall|i: int| 0 <= i < r.len() - 1 implies !(#[trigger] r[i] == ' ' && r[i + 1] == ' ') by {
        if r[i] == ' ' {
            assert(!is_white_space(r[i + 1]));
        }
    }
    crate::text::lemma_trim_fixed(r);
}

/// Normalizing an all-ASCII query gives an all-ASCII text that normalizes
/// to itself; with the ASCII case of `normalize_query_text`, normalizing
/// such a query twice gives what normalizing it once gives.
pub proof fn law_ascii_normalize_idempotent(q: Seq<char>)
    requires
        all_ascii(q),
    ensures
        all_ascii(ascii_normalize(q)),
        ascii_normalize(ascii_normalize(q)) == ascii_normalize(q),
{
    let t = trim(q);
    let l = t.map_values(|c: char| ascii_lower_of(c));
    let x = l.map_values(|c: char| query_char(c));
    crate::text::lemma_trim_from(q);
    assert forall|m: int| 0 <= m < x.len() implies #[trigger] x[m] == ' ' || is_query_char(x[m]) by {}
    lemma_normal_shape(x);
    let r = ascii_normalize(q);
    assert(r == join(split_ws(x), seq![' ']));
    // Each character of `r` is a space or an ASCII-lowercased ASCII
    // character of the query, kept as it is.
    assert forall|i: int| 0 <= i < r.len() implies is_ascii_char(#[trigger] r[i]) && ascii_lower_of(r[i])
        == r[i] && query_char(r[i]) == r[i] by {
        if r[i] != ' ' {
            let m = choose|m: int| 0 <= m < x.len() && x[m] == r[i];
            assert(x[m] == query_char(l[m]));
            assert(l[m] == ascii_lower_of(t[m]));
            let n = choose|n: int| 0 <= n < q.len() && q[n] == t[m];
            assert(is_ascii_char(q[n]));
            crate::text::lemma_ascii_lower(t[m]);
        } else {
            crate::text::lemma_ascii_lower(' ');
        }
    }
    let l2 = trim(r).map_values(|c: char| ascii_lower_of(c));
    assert(l2 =~= r);
    let x2 = l2.map_values(|c: char| query_char(c));
    assert(x2 =~= r);
    let ws = split_ws(x);
    crate::text::lemma_split_ws_words(x);
    crate::text::lemma_split_join(ws);
}

/// A query that starts with a question word (what, why, how, when, where,
/// who, which) is a question, unless it uses comparison wording (`compare `,
/// ` vs `, ` versus `) or a programming term (code, function, struct,
/// trait, rust, python, typescript, javascript).
pub proof fn law_question_words(original: Seq<char>, normalized: Seq<char>)
    requires
        first_word(normalized) == "what"@ || first_word(normalized) == "why"@ || first_word(normalized)
            == "how"@ || first_word(normalized) == "when"@ || first_word(normalized) == "where"@
            || first_word(normalized) == "who"@ || first_word(normalized) == "which"@,
        !contains_seq(normalized, "compare "@),
        !contains_seq(normalized, " vs "@),
        !contains_seq(normalized, " versus "@),
        !contains_seq(normalized, "code"@),
        !contains_seq(normalized, "function"@),
        !contains_seq(normalized, "struct"@),
        !contains_seq(normalized, "trait"@),
        !contains_seq(normalized, "rust"@),
        !contains_seq(normalized, "python"@),
        !contains_seq(normalized, "typescript"@),
        !contains_seq(normalized, "javascript"@),
    ensures
        intent_of(original, normalized) == QueryIntent::Question,
{
    reveal_strlit("what");
    reveal_strlit("why");
    reveal_strlit("how");
    reveal_strlit("when");
    reveal_strlit("where");
    reveal_strlit("who");
    reveal_strlit("which");
    reveal_strlit("summarize");
    reveal_strlit("summary");
    reveal_strlit("recap");
    reveal_strlit("tldr");
    reveal_strlit("implement");
    reveal_strlit("create");
    reveal_strlit("update");
    reveal_strlit("delete");
    reveal_strlit("fix");
    reveal_strlit("write");
    reveal_strlit("run");
    assert("what"@.len() == 4 && "what"@[0] == 'w' && "what"@[1] == 'h');
    assert("why"@.len() == 3 && "why"@[0] == 'w' && "why"@[1] == 'h');
    assert("how"@.len() == 3 && "how"@[0] == 'h' && "how"@[1] == 'o');
    assert("when"@.len() == 4 && "when"@[0] == 'w' && "when"@[1] == 'h');
    assert("where"@.len() == 5 && "where"@[0] == 'w' && "where"@[1] == 'h');
    assert("who"@.len() == 3 && "who"@[0] == 'w' && "who"@[1] == 'h');
    assert("which"@.len() == 5 && "which"@[0] == 'w' && "which"@[1] == 'h');
    assert("summarize"@.len() == 9 && "summarize"@[0] == 's' && "summarize"@[1] == 'u');
    assert("summary"@.len() == 7 && "summary"@[0] == 's' && "summary"@[1] == 'u');
    assert("recap"@.len() == 5 && "recap"@[0] == 'r' && "recap"@[1] == 'e');
    assert("tldr"@.len() == 4 && "tldr"@[0] == 't' && "tldr"@[1] == 'l');
    assert("implement"@.len() == 9 && "implement"@[0] == 'i' && "implement"@[1] == 'm');
    assert("create"@.len() == 6 && "create"@[0] == 'c' && "create"@[1] == 'r');
    assert("update"@.len() == 6 && "update"@[0] == 'u' && "update"@[1] == 'p');
    assert("delete"@.len() == 6 && "delete"@[0] == 'd' && "delete"@[1] == 'e');
    assert("fix"@.len() == 3 && "fix"@[0] == 'f' && "fix"@[1] == 'i');
    assert("write"@.len() == 5 && "write"@[0] == 'w' && "write"@[1] == 'r');
    assert("run"@.len() == 3 && "run"@[0] == 'r' && "run"@[1] == 'u');
    let w = first_word(normalized);
    assert(!is_summary_word(w));
    assert(!is_command_word(w));
}

/// A word that starts with an ASCII capital once ASCII punctuation is
/// trimmed from its ends.
pub open spec fn capitalized(w: Seq<char>) -> bool {
    strip_punct(w, false).len() > 0 && is_ascii_upper(strip_punct(w, false)[0])
}

proof fn lemma_proper_keeps(ws: Seq<Seq<char>>, i: int, cur: Seq<Seq<char>>, acc: Seq<Seq<char>>)
    requires
        0 <= i <= ws.len(),
    ensures
        forall|x: Seq<char>| acc.contains(x) ==> #[trigger] proper_from(ws, i, cur, acc).contains(x),
    decreases ws.len() - i,
{
    let pushed = acc.push(join(cur, seq![' ']));
    assert forall|x: Seq<char>| acc.contains(x) implies pushed.contains(x) by {
        let j = choose|j: int| 0 <= j < acc.len() && acc[j] == x;
        assert(pushed[j] == x);
    }
    if i < ws.len() {
        let t = strip_punct(ws[i], false);
        if t.len() > 0 && is_ascii_upper(t[0]) {
            lemma_proper_keeps(ws, i + 1, cur.push(t), acc);
            assert forall|x: Seq<char>| acc.contains(x) implies #[trigger] proper_from(ws, i, cur, acc).contains(x) by {
                assert(proper_from(ws, i + 1, cur.push(t), acc).contains(x));
            }
        } else if cur.len() > 1 {
            lemma_proper_keeps(ws, i + 1, Seq::empty(), pushed);
            assert forall|x: Seq<char>| acc.contains(x) implies #[trigger] proper_from(ws, i, cur, acc).contains(x) by {
                assert(pushed.contains(x));
                assert(proper_from(ws, i + 1, Seq::empty(), pushed).contains(x));
            }
        } else {
            lemma_proper_keeps(ws, i + 1, Seq::empty(), acc);
            assert forall|x: Seq<char>| acc.contains(x) implies #[trigger] proper_from(ws, i, cur, acc).contains(x) by {
                assert(proper_from(ws, i + 1, Seq::empty(), acc).contains(x));
            }
        }
    }
}

proof fn lemma_proper_run(ws: Seq<Seq<char>>, i: int, b: int, cur: Seq<Seq<char>>, acc: Seq<Seq<char>>)
    requires
        0 <= i <= b <= ws.len(),
        forall|j: int| i <= j < b ==> capitalized(#[trigger] ws[j]),
    ensures
        proper_from(ws, i, cur, acc) == proper_from(
            ws,
            b,
            cur + ws.subrange(i, b).map_values(|w: Seq<char>| strip_punct(w, false)),
            acc,
        ),
    decreases b - i,
{
    if i == b {
        assert(cur + ws.subrange(i, b).map_values(|w: Seq<char>| strip_punct(w, false)) =~= cur);
    } else {
        assert(capitalized(ws[i]));
        let t = strip_punct(ws[i], false);
        lemma_proper_run(ws, i + 1, b, cur.push(t), acc);
        assert(cur.push(t) + ws.subrange(i + 1, b).map_values(|w: Seq<char>| strip_punct(w, false))
            =~= cur + ws.subrange(i, b).map_values(|w: Seq<char>| strip_punct(w, false)));
    }
}

proof fn lemma_proper_reach(ws: Seq<Seq<char>>, i: int)
    requires
        0 <= i <= ws.len(),
    ensures
        exists|cur: Seq<Seq<char>>, acc: Seq<Seq<char>>|
            proper_from(ws, 0, Seq::empty(), Seq::empty()) == #[trigger] proper_from(ws, i, cur, acc),
    decreases i,
{
    if i == 0 {
        assert(proper_from(ws, 0, Seq::empty(), Seq::empty()) == proper_from(
            ws,
            0,
            Seq::<Seq<char>>::empty(),
            Seq::<Seq<char>>::empty(),
        ));
    } else {
        lemma_proper_reach(ws, i - 1);
        let (cur, acc) = choose|cur: Seq<Seq<char>>, acc: Seq<Seq<char>>|
            proper_from(ws, 0, Seq::empty(), Seq::empty()) == #[trigger] proper_from(ws, i - 1, cur, acc);
        let t = strip_punct(ws[i - 1], false);
        if t.len() > 0 && is_ascii_upper(t[0]) {
            assert(proper_from(ws, i - 1, cur, acc) == proper_from(ws, i, cur.push(t), acc));
        } else {
            let acc2 = if cur.len() > 1 {
                acc.push(join(cur, seq![' ']))
            } else {
                acc
            };
            assert(proper_from(ws, i - 1, cur, acc) == proper_from(ws, i, Seq::empty(), acc2));
        }
    }
}

/// Every maximal run of two or more consecutive words of a query that start
/// with an ASCII capital (after trimming ASCII punctuation), wherever it
/// lies in the query, is a proper-noun phrase: those trimmed words joined
/// by single spaces.
pub proof fn law_proper_noun_runs(q: Seq<char>, a: int, b: int)
    requires
        0 <= a,
        a + 2 <= b <= split_ws(q).len(),
        forall|j: int| a <= j < b ==> capitalized(#[trigger] split_ws(q)[j]),
        a == 0 || !capitalized(split_ws(q)[a - 1]),
        b == split_ws(q).len() || !capitalized(split_ws(q)[b]),
    ensures
        proper_nouns(q).contains(
            join(split_ws(q).subrange(a, b).map_values(|w: Seq<char>| strip_punct(w, false)), seq![' ']),
        ),
{
    let ws = split_ws(q);
    let run = ws.subrange(a, b).map_values(|w: Seq<char>| strip_punct(w, false));
    let e: Seq<Seq<char>> = Seq::empty();
    let acc0: Seq<Seq<char>> = if a == 0 {
        e
    } else {
        lemma_proper_reach(ws, a - 1);
        let (cur, acc) = choose|cur: Seq<Seq<char>>, acc: Seq<Seq<char>>|
            proper_from(ws, 0, Seq::empty(), Seq::empty()) == #[trigger] proper_from(ws, a - 1, cur, acc);
        let acc2 = if cur.len() > 1 {
            acc.push(join(cur, seq![' ']))
        } else {
            acc
        };
        assert(proper_from(ws, a - 1, cur, acc) == proper_from(ws, a, Seq::empty(), acc2));
        acc2
    };
    assert(proper_nouns(q) == proper_from(ws, a, Seq::empty(), acc0));
    lemma_proper_run(ws, a, b, Seq::empty(), acc0);
    assert(Seq::<Seq<char>>::empty() + run =~= run);
    let pushed = acc0.push(join(run, seq![' ']));
    assert(pushed.contains(join(run, seq![' '])) ) by {
        assert(pushed[acc0.len() as int] == join(run, seq![' ']));
    }
    if b < ws.len() {
        assert(proper_from(ws, b, run, acc0) == proper_from(ws, b + 1, Seq::empty(), pushed));
        lemma_proper_keeps(ws, b + 1, Seq::empty(), pushed);
    }
}

proof fn lemma_strip_start_from(s: Seq<char>, keep: bool)
    ensures
        forall|i: int| 0 <= i < strip_start(s, keep).len() ==> s.contains(#[trigger] strip_start(s, keep)[i]),
    decreases s.len(),
{
    if s.len() > 0 && strippable(s[0], keep) {
        lemma_strip_start_from(s.drop_first(), keep);
        assert forall|i: int| 0 <= i < strip_start(s, keep).len() implies s.contains(
            #[trigger] strip_start(s, keep)[i],
        ) by {
            assert(strip_start(s, keep) == strip_start(s.drop_first(), keep));
            assert(s.drop_first().contains(strip_start(s.drop_first(), keep)[i]));
            let j = choose|j: int| 0 <= j < s.drop_first().len() && s.drop_first()[j] == strip_start(s, keep)[i];
            assert(s[j + 1] == s.drop_first()[j]);
        }
    } else {
        assert forall|i: int| 0 <= i < strip_start(s, keep).len() implies s.contains(
            #[trigger] strip_start(s, keep)[i],
        ) by {
            assert(s[i] == strip_start(s, keep)[i]);
        }
    }
}

proof fn lemma_strip_end_prefix(s: Seq<char>, keep: bool)
    ensures
        strip_end(s, keep) =~= s.take(strip_end(s, keep).len() as int),
        strip_end(s, keep).len() <= s.len(),
    decreases s.len(),
{
    if s.len() > 0 && strippable(s.last(), keep) {
        lemma_strip_end_prefix(s.drop_last(), keep);
        assert(s.drop_last().take(strip_end(s, keep).len() as int) =~= s.take(
            strip_end(s, keep).len() as int,
        ));
    } else {
        assert(s.take(s.len() as int) =~= s);
    }
}

proof fn lemma_strip_punct_from(s: Seq<char>, keep: bool)
    ensures
        forall|i: int| 0 <= i < strip_punct(s, keep).len() ==> s.contains(#[trigger] strip_punct(s, keep)[i]),
{
    lemma_strip_start_from(s, keep);
    lemma_strip_end_prefix(strip_start(s, keep), keep);
    assert forall|i: int| 0 <= i < strip_punct(s, keep).len() implies s.contains(
        #[trigger] strip_punct(s, keep)[i],
    ) by {
        assert(strip_punct(s, keep)[i] == strip_start(s, keep)[i]);
    }
}

proof fn lemma_add_entities_covers(
    ents: Seq<(QueryEntityKind, Seq<char>)>,
    kind: QueryEntityKind,
    values: Seq<Seq<char>>,
)
    ensures
        forall|x: (QueryEntityKind, Seq<char>)| ents.contains(x) ==> #[trigger] add_entities(
            ents,
            kind,
            values,
        ).contains(x),
        forall|k: int|
            0 <= k < values.len() && trim(#[trigger] values[k]).len() > 0 ==> add_entities(
                ents,
                kind,
                values,
            ).contains((kind, trim(values[k]))),
    decreases values.len(),
{
    if values.len() > 0 {
        let init = values.drop_last();
        lemma_add_entities_covers(ents, kind, init);
        let prev = add_entities(ents, kind, init);
        let r = add_entities(ents, kind, values);
        let v = trim(values.last());
        if v.len() > 0 && !prev.contains((kind, v)) {
            assert(r == prev.push((kind, v)));
            assert forall|x: (QueryEntityKind, Seq<char>)| prev.contains(x) implies r.contains(x) by {
                let j = choose|j: int| 0 <= j < prev.len() && prev[j] == x;
                assert(r[j] == x);
            }
            assert(r[prev.len() as int] == (kind, v));
        }
        assert forall|k: int| 0 <= k < values.len() && trim(#[trigger] values[k]).len() > 0 implies r.contains(
            (kind, trim(values[k])),
        ) by {
            if k < init.len() {
                assert(init[k] == values[k]);
                assert(prev.contains((kind, trim(init[k]))));
            }
        }
    }
}

/// The entities of a query hold each of its maximal runs of two or more
/// capitalized words (see `law_proper_noun_runs`) as a proper noun: the
/// punctuation-trimmed words joined by single spaces.
pub proof fn law_proper_noun_entities(q: Seq<char>, a: int, b: int)
    requires
        0 <= a,
        a + 2 <= b <= split_ws(q).len(),
        forall|j: int| a <= j < b ==> capitalized(#[trigger] split_ws(q)[j]),
        a == 0 || !capitalized(split_ws(q)[a - 1]),
        b == split_ws(q).len() || !capitalized(split_ws(q)[b]),
    ensures
        entities_of(q).contains(
            (
                QueryEntityKind::ProperNoun,
                join(split_ws(q).subrange(a, b).map_values(|w: Seq<char>| strip_punct(w, false)), seq![' ']),
            ),
        ),
{
    let ws = split_ws(q);
    let run = ws.subrange(a, b).map_values(|w: Seq<char>| strip_punct(w, false));
    let phrase = join(run, seq![' ']);
    law_proper_noun_runs(q, a, b);
    crate::text::lemma_split_ws_words(q);
    assert forall|k: int| 0 <= k < run.len() implies (#[trigger] run[k]).len() > 0 && forall|j: int|
        0 <= j < run[k].len() ==> !is_white_space(#[trigger] run[k][j]) by {
        let w = ws[a + k];
        assert(run[k] == strip_punct(w, false));
        assert(capitalized(ws[a + k]));
        lemma_strip_punct_from(w, false);
        assert forall|j: int| 0 <= j < run[k].len() implies !is_white_space(#[trigger] run[k][j]) by {
            assert(w.contains(run[k][j]));
            let m = choose|m: int| 0 <= m < w.len() && w[m] == run[k][j];
            assert(!is_white_space(ws[a + k][m]));
        }
    }
    crate::text::lemma_join_shape(run);
    crate::text::lemma_trim_fixed(phrase);
    assert(trim(phrase) == phrase);
    let pn = proper_nouns(q);
    let k = choose|k: int| 0 <= k < pn.len() && pn[k] == phrase;
    let token_ents = add_token_entities(
        add_entities(Seq::empty(), QueryEntityKind::QuotedPhrase, quoted(q)),
        split_ws(q),
    );
    lemma_add_entities_covers(token_ents, QueryEntityKind::ProperNoun, pn);
    assert(trim(pn[k]).len() > 0) by {
        assert(run[0].len() > 0);
        crate::text::lemma_join_shape(run);
    }
}

} // verus!
