//! Query expansion: search terms from an analyzed query, widened with the
//! expansions a provider gives for each token.
use vstd::prelude::*;

use crate::query::{
    copy_strings, entity_values, normalize, normalize_query_text, normalize_terms,
    normalized_terms, strings, strs, tokenize, tokens_of, AnalyzedQuery, contains_string,
};
use crate::text::{join, push_char};
use crate::table::{distinct_keys, lemma_table_lookup, lemma_table_update, table_of};

verus! {

/// The search terms of a query after expansion.
#[derive(Debug, Clone, PartialEq, Eq)]
pub struct ExpandedQuery {
    pub original: String,
    pub terms: Vec<String>,
}

impl ExpandedQuery {
    /// The terms joined with single spaces.
    pub fn as_search_text(&self) -> (r: String)
        ensures
            r@ == join(strings(self.terms@), seq![' ']),
    {
        let mut r = String::new();
        let mut i: usize = 0;
        while i < self.terms.len()
            invariant
                i <= self.terms.len(),
                r@ == join(strings(self.terms@).take(i as int), seq![' ']),
            decreases self.terms.len() - i,
        {
            let ghost before = r@;
            if i > 0 {
                push_char(&mut r, ' ');
            }
            append_str(&mut r, self.terms[i].as_str());
            proof {
                let l = strings(self.terms@);
                assert(l.take(i + 1).drop_last() =~= l.take(i as int));
                assert(l.take(i + 1).last() == self.terms@[i as int]@);
                if i == 0 {
                    assert(r@ =~= l.take(1)[0]);
                } else {
                    assert(r@ =~= before + seq![' '] + self.terms@[i as int]@);
                }
            }
            i = i + 1;
        }
        proof {
            assert(strings(self.terms@).take(self.terms.len() as int) =~= strings(self.terms@));
        }
        r
    }
}

/// Appends the characters of `b` to `a`.
fn append_str(a: &mut String, b: &str)
    ensures
        final(a)@ == old(a)@ + b@,
{
    let cs = crate::text::chars_of(b);
    let ghost start = a@;
    let mut i: usize = 0;
    while i < cs.len()
        invariant
            i <= cs.len(),
            cs@ == b@,
            a@ == start + cs@.take(i as int),
        decreases cs.len() - i,
    {
        push_char(a, cs[i]);
        i = i + 1;
        proof {
            assert(a@ =~= start + cs@.take(i as int));
        }
    }
    proof {
        assert(cs@.take(cs.len() as int) =~= cs@);
    }
}

/// A source of related terms for a query token.
pub trait TermExpansionProvider: Send + Sync {
    fn expand_term(&self, term: &str) -> Vec<String>;
}

/// The built-in related terms of a token, used when a static provider has
/// no entry for it.
pub open spec fn default_expansion_of(t: Seq<char>) -> Seq<Seq<char>> {
    if t == "bug"@ {
        seq!["error"@, "issue"@, "defect"@]
    } else if t == "fix"@ {
        seq!["repair"@, "resolve"@, "patch"@]
    } else if t == "auth"@ {
        seq!["authentication"@, "authorization"@, "login"@]
    } else if t == "login"@ {
        seq!["signin"@, "authentication"@, "session"@]
    } else if t == "vector"@ {
        seq!["embedding"@, "semantic"@, "similarity"@]
    } else if t == "embedding"@ {
        seq!["vector"@, "semantic"@, "representation"@]
    } else if t == "rust"@ {
        seq!["cargo"@, "crate"@, "trait"@]
    } else if t == "summary"@ {
        seq!["summarize"@, "recap"@, "overview"@]
    } else if t == "document"@ {
        seq!["file"@, "record"@, "source"@]
    } else {
        Seq::empty()
    }
}

fn three(a: &str, b: &str, c: &str) -> (r: Vec<String>)
    ensures
        strings(r@) == seq![a@, b@, c@],
{
    let mut r: Vec<String> = Vec::new();
    r.push(a.to_owned());
    r.push(b.to_owned());
    r.push(c.to_owned());
    proof {
        assert(strings(r@) =~= seq![a@, b@, c@]);
    }
    r
}

/// The built-in related terms of a token.
pub fn default_expansions(term: &str) -> (r: Vec<String>)
    ensures
        strings(r@) == default_expansion_of(term@),
{
    let t = crate::text::chars_of(term);
    if crate::text::chars_eq_str(&t, "bug") {
        three("error", "issue", "defect")
    } else if crate::text::chars_eq_str(&t, "fix") {
        three("repair", "resolve", "patch")
    } else if crate::text::chars_eq_str(&t, "auth") {
        three("authentication", "authorization", "login")
    } else if crate::text::chars_eq_str(&t, "login") {
        three("signin", "authentication", "session")
    } else if crate::text::chars_eq_str(&t, "vector") {
        three("embedding", "semantic", "similarity")
    } else if crate::text::chars_eq_str(&t, "embedding") {
        three("vector", "semantic", "representation")
    } else if crate::text::chars_eq_str(&t, "rust") {
        three("cargo", "crate", "trait")
    } else if crate::text::chars_eq_str(&t, "summary") {
        three("summarize", "recap", "overview")
    } else if crate::text::chars_eq_str(&t, "document") {
        three("file", "record", "source")
    } else {
        let r: Vec<String> = Vec::new();
        proof {
            assert(strings(r@) =~= Seq::<Seq<char>>::empty());
        }
        r
    }
}

/// Expansion terms configured per token, with the built-in terms as a
/// fallback for tokens it has no entry for.
#[derive(Debug)]
pub struct StaticTermExpansionProvider {
    terms: Vec<(String, Vec<String>)>,
}

/// The keys and values of the entries of a static provider.
pub open spec fn entry_views(v: Seq<(String, Vec<String>)>) -> Seq<(Seq<char>, Seq<Seq<char>>)> {
    v.map_values(|e: (String, Vec<String>)| (e.0@, strings(e.1@)))
}

impl View for StaticTermExpansionProvider {
    type V = Map<Seq<char>, Seq<Seq<char>>>;

    closed spec fn view(&self) -> Map<Seq<char>, Seq<Seq<char>>> {
        table_of(entry_views(self.terms@))
    }
}

impl StaticTermExpansionProvider {
    #[verifier::type_invariant]
    closed spec fn keys_distinct(self) -> bool {
        distinct_keys(entry_views(self.terms@))
    }

    /// A provider with no entries.
    pub fn new() -> (r: Self)
        ensures
            r@ == Map::<Seq<char>, Seq<Seq<char>>>::empty(),
    {
        let terms: Vec<(String, Vec<String>)> = Vec::new();
        proof {
            assert(entry_views(terms@) =~= Seq::<(Seq<char>, Seq<Seq<char>>)>::empty());
        }
        StaticTermExpansionProvider { terms }
    }

    /// This provider with the normalized `term` mapped to the normalized,
    /// non-empty `expansions`, replacing an earlier entry for that term.
    pub fn with_terms(self, term: &str, expansions: &[&str]) -> (r: Self)
        ensures
            r@ == self@.insert(normalize(term@), normalized_terms(strs(expansions@))),
    {
        proof {
            use_type_invariant(&self);
        }
        let key = normalize_query_text(term);
        let values = normalize_terms(expansions);
        let mut terms = self.terms;
        let ghost es = entry_views(terms@);
        let ghost vv = strings(values@);
        match find_key(&terms, &key) {
            Some(i) => {
                let k2 = terms[i].0.clone();
                terms.set(i, (k2, values));
                proof {
                    assert(entry_views(terms@) =~= es.update(i as int, (es[i as int].0, vv)));
                    lemma_table_update(es, i as int, vv);
                }
                StaticTermExpansionProvider { terms }
            },
            None => {
                let ghost kv = key@;
                terms.push((key, values));
                proof {
                    assert(entry_views(terms@) =~= es.push((kv, vv)));
                    assert(entry_views(terms@).drop_last() =~= es);
                    assert forall|a: int, b: int|
                        0 <= a < b < entry_views(terms@).len() implies entry_views(terms@)[a].0
                        != entry_views(terms@)[b].0 by {
                        if b < es.len() {
                            assert(entry_views(terms@)[a] == es[a]);
                            assert(entry_views(terms@)[b] == es[b]);
                        } else {
                            assert(entry_views(terms@)[a] == es[a]);
                        }
                    }
                }
                StaticTermExpansionProvider { terms }
            },
        }
    }

    /// The expansions of a term: its entry, or the built-in expansions when
    /// it has none.
    pub fn lookup(&self, term: &str) -> (r: Vec<String>)
        ensures
            strings(r@) == if self@.contains_key(term@) {
                self@[term@]
            } else {
                default_expansion_of(term@)
            },
    {
        proof {
            use_type_invariant(self);
        }
        let ghost es = entry_views(self.terms@);
        let key = crate::text::chars_of(term);
        let mut i: usize = 0;
        while i < self.terms.len()
            invariant
                i <= self.terms.len(),
                es == entry_views(self.terms@),
                distinct_keys(es),
                key@ == term@,
                forall|j: int| 0 <= j < i ==> es[j].0 != term@,
            decreases self.terms.len() - i,
        {
            let k = crate::text::chars_of(self.terms[i].0.as_str());
            if crate::text::chars_eq(&k, &key) {
                proof {
                    lemma_table_lookup(es, term@);
                    assert(es[i as int].0 == term@);
                }
                return copy_strings(&self.terms[i].1);
            }
            i = i + 1;
        }
        proof {
            lemma_table_lookup(es, term@);
        }
        default_expansions(term)
    }
}

/// The position of the entry for `key`, if there is one.
fn find_key(terms: &Vec<(String, Vec<String>)>, key: &String) -> (r: Option<usize>)
    ensures
        match r {
            Some(i) => i < terms.len() && entry_views(terms@)[i as int].0 == key@,
            None => forall|j: int| 0 <= j < terms.len() ==> entry_views(terms@)[j].0 != key@,
        },
{
    let mut i: usize = 0;
    while i < terms.len()
        invariant
            i <= terms.len(),
            forall|j: int| 0 <= j < i ==> entry_views(terms@)[j].0 != key@,
        decreases terms.len() - i,
    {
        if terms[i].0 == *key {
            return Some(i);
        }
        i = i + 1;
    }
    None
}

impl Clone for StaticTermExpansionProvider {
    fn clone(&self) -> (r: Self)
        ensures
            r@ == self@,
    {
        proof {
            use_type_invariant(self);
        }
        let mut terms: Vec<(String, Vec<String>)> = Vec::new();
        let mut i: usize = 0;
        while i < self.terms.len()
            invariant
                i <= self.terms.len(),
                entry_views(terms@) == entry_views(self.terms@).take(i as int),
            decreases self.terms.len() - i,
        {
            let e = (self.terms[i].0.clone(), copy_strings(&self.terms[i].1));
            let ghost ev = (e.0@, strings(e.1@));
            let ghost before = entry_views(terms@);
            terms.push(e);
            proof {
                assert(entry_views(terms@) =~= before.push(ev));
                assert(entry_views(self.terms@).take(i + 1) =~= entry_views(self.terms@).take(
                    i as int,
                ).push(ev));
            }
            i = i + 1;
        }
        proof {
            assert(entry_views(self.terms@).take(self.terms.len() as int) =~= entry_views(
                self.terms@,
            ));
        }
        StaticTermExpansionProvider { terms }
    }
}

impl Default for StaticTermExpansionProvider {
    fn default() -> (r: Self)
        ensures
            r@ == Map::<Seq<char>, Seq<Seq<char>>>::empty(),
    {
        StaticTermExpansionProvider::new()
    }
}

impl TermExpansionProvider for StaticTermExpansionProvider {
    fn expand_term(&self, term: &str) -> (r: Vec<String>)
        ensures
            strings(r@) == if self@.contains_key(term@) {
                self@[term@]
            } else {
                default_expansion_of(term@)
            },
    {
        self.lookup(term)
    }
}

// ---------------------------------------------------------------------------
// Expansion
// ---------------------------------------------------------------------------

/// The views of lists of expansions.
pub open spec fn expansion_views(v: Seq<Vec<String>>) -> Seq<Seq<Seq<char>>> {
    v.map_values(|e: Vec<String>| strings(e@))
}

/// `terms` with the normalized `t` added, unless it is empty or present.
pub open spec fn add_term(terms: Seq<Seq<char>>, t: Seq<char>) -> Seq<Seq<char>> {
    let n = normalize(t);
    if n.len() > 0 && !terms.contains(n) {
        terms.push(n)
    } else {
        terms
    }
}

/// Adding the expansions `es` of one token to `terms`, stopping once there
/// are `max` terms; the flag tells whether it stopped.
pub open spec fn scan_expansions(terms: Seq<Seq<char>>, es: Seq<Seq<char>>, max: nat) -> (
    Seq<Seq<char>>,
    bool,
)
    decreases es.len(),
{
    if es.len() == 0 {
        (terms, false)
    } else {
        let (prev, stopped) = scan_expansions(terms, es.drop_last(), max);
        if stopped {
            (prev, true)
        } else {
            let next = add_term(prev, es.last());
            (next, next.len() >= max)
        }
    }
}

/// Adding each of `tokens` followed by its expansions (`exps`, one list per
/// token); once adding a token itself reaches `max` terms, the remaining
/// tokens are left out (the flag).  Reaching `max` while adding the
/// expansions of a token only ends that token's expansions.
pub open spec fn scan_tokens(tokens: Seq<Seq<char>>, exps: Seq<Seq<Seq<char>>>, max: nat) -> (
    Seq<Seq<char>>,
    bool,
)
    decreases tokens.len(),
{
    if tokens.len() == 0 {
        (Seq::empty(), false)
    } else {
        let (prev, stopped) = scan_tokens(tokens.drop_last(), exps, max);
        if stopped {
            (prev, true)
        } else {
            let with_token = add_term(prev, tokens.last());
            if with_token.len() >= max {
                (with_token, true)
            } else {
                (scan_expansions(with_token, exps[tokens.len() - 1], max).0, false)
            }
        }
    }
}

/// Adding the normalized entity values while there are fewer than `max`
/// terms.
pub open spec fn scan_entities(terms: Seq<Seq<char>>, values: Seq<Seq<char>>, max: nat) -> Seq<
    Seq<char>,
>
    decreases values.len(),
{
    if values.len() == 0 {
        terms
    } else {
        let prev = scan_entities(terms, values.drop_last(), max);
        if prev.len() >= max {
            prev
        } else {
            add_term(prev, normalize(values.last()))
        }
    }
}

/// The expansion terms of an analyzed query whose search tokens get the
/// expansions `exps`.
pub open spec fn expansion_terms(
    normalized: Seq<char>,
    exps: Seq<Seq<Seq<char>>>,
    entity_vals: Seq<Seq<char>>,
    max: nat,
) -> Seq<Seq<char>> {
    scan_entities(scan_tokens(tokens_of(normalized), exps, max).0, entity_vals, max)
}

proof fn lemma_scan_tokens_exps_prefix(
    tokens: Seq<Seq<char>>,
    exps: Seq<Seq<Seq<char>>>,
    exps2: Seq<Seq<Seq<char>>>,
    max: nat,
)
    requires
        exps.len() >= tokens.len(),
        exps2.len() >= tokens.len(),
        forall|i: int| 0 <= i < tokens.len() ==> exps[i] == exps2[i],
    ensures
        scan_tokens(tokens, exps, max) == scan_tokens(tokens, exps2, max),
    decreases tokens.len(),
{
    if tokens.len() > 0 {
        lemma_scan_tokens_exps_prefix(tokens.drop_last(), exps, exps2, max);
    }
}

proof fn lemma_scan_tokens_stopped(
    tokens: Seq<Seq<char>>,
    exps: Seq<Seq<Seq<char>>>,
    i: int,
    max: nat,
)
    requires
        0 <= i <= tokens.len(),
        scan_tokens(tokens.take(i), exps, max).1,
    ensures
        scan_tokens(tokens, exps, max) == scan_tokens(tokens.take(i), exps, max),
    decreases tokens.len() - i,
{
    if i < tokens.len() {
        assert(tokens.drop_last().take(i) =~= tokens.take(i));
        lemma_scan_tokens_stopped(tokens.drop_last(), exps, i, max);
    } else {
        assert(tokens.take(i) =~= tokens);
    }
}

/// The provider is asked about token `i` of `tokens`: the scan had not
/// stopped before it, and adding the token itself left room in the budget.
pub open spec fn consulted(tokens: Seq<Seq<char>>, exps: Seq<Seq<Seq<char>>>, max: nat, i: int) -> bool {
    let prev = scan_tokens(tokens.take(i), exps, max);
    !prev.1 && add_term(prev.0, tokens[i]).len() < max
}

/// `answer` is an answer the provider gives for `token`: a call of its
/// `expand_term` on a string of `token` may return expansions whose texts
/// are `answer`.
pub open spec fn provider_answers<P: TermExpansionProvider>(
    provider: P,
    token: Seq<char>,
    answer: Seq<Seq<char>>,
) -> bool {
    exists|s: &str, v: Vec<String>|
        #![auto]
        s@ == token && strings(v@) == answer && call_ensures(P::expand_term, (&provider, s), v)
}

proof fn lemma_consulted_extend(
    tokens: Seq<Seq<char>>,
    exps: Seq<Seq<Seq<char>>>,
    exps2: Seq<Seq<Seq<char>>>,
    max: nat,
    i: int,
)
    requires
        0 <= i < tokens.len(),
        exps.len() == i,
        exps2 == exps.push(exps2[i]),
    ensures
        forall|j: int| 0 <= j <= i ==> consulted(tokens, exps2, max, j) == consulted(tokens, exps, max, j),
{
    assert forall|j: int| 0 <= j <= i implies consulted(tokens, exps2, max, j) == consulted(
        tokens,
        exps,
        max,
        j,
    ) by {
        lemma_scan_tokens_exps_prefix(tokens.take(j), exps, exps2, max);
    }
}

/// Expands analyzed queries with related terms from a provider, keeping at
/// most about `max_terms` terms.
#[derive(Debug, Clone)]
pub struct QueryExpander<P> {
    provider: P,
    max_terms: usize,
}

impl<P> QueryExpander<P> {
    /// The term budget of this expander.
    pub closed spec fn term_budget(&self) -> nat {
        self.max_terms as nat
    }

    /// The provider of this expander.
    pub closed spec fn term_provider(&self) -> P {
        self.provider
    }
}

impl QueryExpander<StaticTermExpansionProvider> {
    /// An expander with an empty static provider and a budget of 32 terms.
    pub fn new() -> (r: Self)
        ensures
            r.term_budget() == 32,
            r.term_provider()@ == Map::<Seq<char>, Seq<Seq<char>>>::empty(),
    {
        QueryExpander { provider: StaticTermExpansionProvider::new(), max_terms: 32 }
    }

    /// This expander with the static entry for `term` set to `expansions`.
    pub fn with_static_terms(self, term: &str, expansions: &[&str]) -> (r: Self)
        ensures
            r.term_budget() == self.term_budget(),
            r.term_provider()@ == self.term_provider()@.insert(
                normalize(term@),
                normalized_terms(strs(expansions@)),
            ),
    {
        QueryExpander {
            provider: self.provider.with_terms(term, expansions),
            max_terms: self.max_terms,
        }
    }
}

impl Default for QueryExpander<StaticTermExpansionProvider> {
    fn default() -> (r: Self)
        ensures
            r.term_budget() == 32,
            r.term_provider()@ == Map::<Seq<char>, Seq<Seq<char>>>::empty(),
    {
        QueryExpander::new()
    }
}

impl<P: TermExpansionProvider> QueryExpander<P> {
    /// An expander over `provider` with a budget of 32 terms.
    pub fn with_provider(provider: P) -> (r: Self)
        ensures
            r.term_budget() == 32,
            r.term_provider() == provider,
    {
        QueryExpander { provider, max_terms: 32 }
    }

    /// This expander with a budget of `max_terms` terms, at least one.
    pub fn with_max_terms(self, max_terms: usize) -> (r: Self)
        ensures
            r.term_budget() == if max_terms >= 1 {
                max_terms
            } else {
                1
            },
            r.term_provider() == self.term_provider(),
    {
        QueryExpander { provider: self.provider, max_terms: if max_terms >= 1 { max_terms } else { 1 } }
    }

    /// Adds the normalized `term` unless it is empty or already present.
    fn push_term(&self, terms: &mut Vec<String>, term: &str)
        ensures
            strings(final(terms)@) == add_term(strings(old(terms)@), term@),
    {
        let normalized = normalize_query_text(term);
        if !normalized.as_str().is_empty() && !contains_string(terms, &normalized) {
            let ghost before = strings(terms@);
            let ghost nv = normalized@;
            terms.push(normalized);
            proof {
                assert(strings(terms@) =~= before.push(nv));
            }
        }
    }

    /// The search terms of an analyzed query: each of its search tokens
    /// followed by the provider's expansions of it, then its entity values,
    /// normalized and each once, within the term budget.  `exps` stands for
    /// what the provider answered for each token.
    pub fn expand(&self, analyzed: &AnalyzedQuery) -> (r: ExpandedQuery)
        ensures
            r.original@ == analyzed.original@,
            exists|exps: Seq<Seq<Seq<char>>>|
                {
                    &&& exps.len() == tokens_of(analyzed.normalized@).len()
                    &&& strings(r.terms@) == expansion_terms(
                        analyzed.normalized@,
                        exps,
                        entity_values(analyzed.entities@),
                        self.term_budget(),
                    )
                    &&& forall|j: int|
                        0 <= j < exps.len() && consulted(
                            tokens_of(analyzed.normalized@),
                            exps,
                            self.term_budget(),
                            j,
                        ) ==> provider_answers(
                            self.term_provider(),
                            tokens_of(analyzed.normalized@)[j],
                            #[trigger] exps[j],
                        )
                },
    {
        self.expand_from(analyzed, None)
    }

    /// The search terms of an analyzed query when its search tokens (as
    /// `tokenize` lists them) have the expansions `expansions`, one list per
    /// token.
    pub fn expand_with_expansions(&self, analyzed: &AnalyzedQuery, expansions: &Vec<Vec<String>>) -> (r:
        ExpandedQuery)
        requires
            expansions.len() == tokens_of(analyzed.normalized@).len(),
        ensures
            r.original@ == analyzed.original@,
            strings(r.terms@) == expansion_terms(
                analyzed.normalized@,
                expansion_views(expansions@),
                entity_values(analyzed.entities@),
                self.term_budget(),
            ),
    {
        self.expand_from(analyzed, Some(expansions))
    }

    /// Expansion with the given expansions of the tokens, or else with the
    /// provider's.
    fn expand_from(&self, analyzed: &AnalyzedQuery, given: Option<&Vec<Vec<String>>>) -> (r: ExpandedQuery)
        requires
            given is Some ==> given->0.len() == tokens_of(analyzed.normalized@).len(),
        ensures
            r.original@ == analyzed.original@,
            exists|exps: Seq<Seq<Seq<char>>>|
                {
                    &&& exps.len() == tokens_of(analyzed.normalized@).len()
                    &&& given is Some ==> exps == expansion_views(given->0@)
                    &&& strings(r.terms@) == expansion_terms(
                        analyzed.normalized@,
                        exps,
                        entity_values(analyzed.entities@),
                        self.term_budget(),
                    )
                    &&& given is None ==> forall|j: int|
                        0 <= j < exps.len() && consulted(
                            tokens_of(analyzed.normalized@),
                            exps,
                            self.term_budget(),
                            j,
                        ) ==> provider_answers(
                            self.term_provider(),
                            tokens_of(analyzed.normalized@)[j],
                            #[trigger] exps[j],
                        )
                },
    {
        let tokens = tokenize(analyzed.normalized.as_str());
        let ghost toks = strings(tokens@);
        let ghost max = self.max_terms as nat;
        let ghost gv: Seq<Seq<Seq<char>>> = match given {
            Some(g) => expansion_views(g@),
            None => Seq::empty(),
        };
        let ghost mut exps: Seq<Seq<Seq<char>>> = Seq::empty();
        let mut terms: Vec<String> = Vec::new();
        let mut stopped = false;
        let mut i: usize = 0;
        proof {
            assert(toks.take(0) =~= Seq::<Seq<char>>::empty());
            assert(strings(terms@) =~= Seq::<Seq<char>>::empty());
        }
        while i < tokens.len() && !stopped
            invariant
                i <= tokens.len(),
                toks == strings(tokens@),
                max == self.max_terms,
                exps.len() == i,
                (strings(terms@), stopped) == scan_tokens(toks.take(i as int), exps, max),
                given is Some ==> given->0.len() == toks.len() && gv == expansion_views(given->0@)
                    && exps == gv.take(i as int),
                given is None ==> forall|j: int|
                    0 <= j < i && consulted(toks, exps, max, j) ==> provider_answers(
                        self.provider,
                        toks[j],
                        #[trigger] exps[j],
                    ),
            decreases tokens.len() - i,
        {
            proof {
                assert(toks.take(i + 1).drop_last() =~= toks.take(i as int));
                assert(toks.take(i + 1).last() == tokens@[i as int]@);
            }
            let ghost old_exps = exps;
            let ghost prev = strings(terms@);
            assert(scan_tokens(toks.take(i as int), old_exps, max) == (prev, false));
            let tok: &str = tokens[i].as_str();
            assert(tok@ == toks[i as int]);
            self.push_term(&mut terms, tok);
            assert(strings(terms@).len() == terms.len());
            assert(strings(terms@) == add_term(prev, toks.take(i + 1).last()));
            if terms.len() >= self.max_terms {
                stopped = true;
                proof {
                    if given is Some {
                        exps = exps.push(gv[i as int]);
                        assert(exps =~= gv.take(i + 1));
                    } else {
                        exps = exps.push(Seq::empty());
                    }
                    lemma_scan_tokens_exps_prefix(toks.take(i as int), old_exps, exps, max);
                    assert(scan_tokens(toks.take(i + 1), exps, max) == (strings(terms@), true));
                    lemma_consulted_extend(toks, old_exps, exps, max, i as int);
                    assert(!consulted(toks, exps, max, i as int));
                }
            } else {
                let expansions = match given {
                    Some(g) => copy_strings(&g[i]),
                    None => self.provider.expand_term(tok),
                };
                proof {
                    if given is None {
                        assert(call_ensures(P::expand_term, (&self.provider, tok), expansions));
                        assert(provider_answers(self.provider, toks[i as int], strings(expansions@)));
                    }
                }
                let ghost ev = strings(expansions@);
                let ghost with_token = strings(terms@);
                let mut j: usize = 0;
                let mut inner_stop = false;
                proof {
                    assert(ev.take(0) =~= Seq::<Seq<char>>::empty());
                }
                while j < expansions.len() && !inner_stop
                    invariant
                        j <= expansions.len(),
                        ev == strings(expansions@),
                        max == self.max_terms,
                        (strings(terms@), inner_stop) == scan_expansions(
                            with_token,
                            ev.take(j as int),
                            max,
                        ),
                    decreases expansions.len() - j,
                {
                    proof {
                        assert(ev.take(j + 1).drop_last() =~= ev.take(j as int));
                        assert(ev.take(j + 1).last() == expansions@[j as int]@);
                    }
                    self.push_term(&mut terms, expansions[j].as_str());
                    assert(strings(terms@).len() == terms.len());
                    if terms.len() >= self.max_terms {
                        inner_stop = true;
                    }
                    j = j + 1;
                }
                proof {
                    lemma_scan_expansions_stopped(with_token, ev, j as int, max);
                    exps = exps.push(ev);
                    if given is Some {
                        assert(ev == gv[i as int]);
                        assert(exps =~= gv.take(i + 1));
                    }
                    lemma_scan_tokens_exps_prefix(toks.take(i as int), old_exps, exps, max);
                    assert(exps[i as int] == ev);
                    assert(scan_tokens(toks.take(i + 1), exps, max) == (
                        scan_expansions(with_token, ev, max).0,
                        false,
                    ));
                    lemma_consulted_extend(toks, old_exps, exps, max, i as int);
                }
            }
            i = i + 1;
        }
        let ghost n_tokens = toks.len();
        let ghost full_exps = if given is Some {
            exps + gv.skip(i as int)
        } else {
            exps + Seq::new((n_tokens - i) as nat, |k: int| Seq::<Seq<char>>::empty())
        };
        proof {
            if given is Some {
                assert(full_exps =~= gv);
            }
        }
        proof {
            lemma_scan_tokens_exps_prefix(toks.take(i as int), exps, full_exps, max);
            if stopped {
                lemma_scan_tokens_stopped(toks, full_exps, i as int, max);
            } else {
                assert(toks.take(i as int) =~= toks);
            }
            if given is None {
                assert forall|j: int|
                    0 <= j < full_exps.len() && consulted(toks, full_exps, max, j) implies provider_answers(
                    self.provider,
                    toks[j],
                    #[trigger] full_exps[j],
                ) by {
                    if j < i {
                        lemma_scan_tokens_exps_prefix(toks.take(j), exps, full_exps, max);
                        assert(full_exps[j] == exps[j]);
                    } else {
                        assert(stopped);
                        assert(toks.take(j).take(i as int) =~= toks.take(i as int));
                        lemma_scan_tokens_stopped(toks.take(j), full_exps, i as int, max);
                    }
                }
            }
        }
        let ghost token_terms = strings(terms@);
        let entities = &analyzed.entities;
        let mut k: usize = 0;
        proof {
            assert(entity_values(entities@).take(0) =~= Seq::<Seq<char>>::empty());
        }
        while k < entities.len() && terms.len() < self.max_terms
            invariant
                k <= entities.len(),
                entities == &analyzed.entities,
                strings(terms@) == scan_entities(
                    token_terms,
                    entity_values(entities@).take(k as int),
                    max,
                ),
                max == self.max_terms,
            decreases entities.len() - k,
        {
            proof {
                let evs = entity_values(entities@);
                assert(evs.take(k + 1).drop_last() =~= evs.take(k as int));
                assert(evs.take(k + 1).last() == entities@[k as int].value@);
            }
            assert(strings(terms@).len() == terms.len());
            let value = normalize_query_text(entities[k].value.as_str());
            self.push_term(&mut terms, value.as_str());
            k = k + 1;
        }
        proof {
            assert(strings(terms@).len() == terms.len());
            lemma_scan_entities_full(token_terms, entity_values(entities@), k as int, max);
            assert(full_exps.len() == tokens_of(analyzed.normalized@).len());
            assert(strings(terms@) == expansion_terms(
                analyzed.normalized@,
                full_exps,
                entity_values(analyzed.entities@),
                self.term_budget(),
            ));
        }
        ExpandedQuery { original: analyzed.original.clone(), terms }
    }
}

proof fn lemma_scan_expansions_stopped(terms: Seq<Seq<char>>, es: Seq<Seq<char>>, j: int, max: nat)
    requires
        0 <= j <= es.len(),
        j < es.len() ==> scan_expansions(terms, es.take(j), max).1,
    ensures
        scan_expansions(terms, es, max).0 == scan_expansions(terms, es.take(j), max).0,
    decreases es.len() - j,
{
    if j < es.len() {
        lemma_scan_expansions_stopped_mono(terms, es, j, max);
    } else {
        assert(es.take(j) =~= es);
    }
}

proof fn lemma_scan_expansions_stopped_mono(terms: Seq<Seq<char>>, es: Seq<Seq<char>>, j: int, max: nat)
    requires
        0 <= j <= es.len(),
        scan_expansions(terms, es.take(j), max).1,
    ensures
        scan_expansions(terms, es, max) == scan_expansions(terms, es.take(j), max),
    decreases es.len() - j,
{
    if j < es.len() {
        assert(es.drop_last().take(j) =~= es.take(j));
        lemma_scan_expansions_stopped_mono(terms, es.drop_last(), j, max);
    } else {
        assert(es.take(j) =~= es);
    }
}

proof fn lemma_scan_entities_full(terms: Seq<Seq<char>>, values: Seq<Seq<char>>, k: int, max: nat)
    requires
        0 <= k <= values.len(),
        k < values.len() ==> scan_entities(terms, values.take(k), max).len() >= max,
    ensures
        scan_entities(terms, values, max) == scan_entities(terms, values.take(k), max),
    decreases values.len() - k,
{
    if k < values.len() {
        assert(values.drop_last().take(k) =~= values.take(k));
        lemma_scan_entities_full(terms, values.drop_last(), k, max);
    } else {
        assert(values.take(k) =~= values);
    }
}

/// Distinct, non-empty terms.
pub open spec fn sound_terms(ts: Seq<Seq<char>>) -> bool {
    ts.no_duplicates() && forall|i: int| 0 <= i < ts.len() ==> #[trigger] ts[i].len() > 0
}

proof fn lemma_add_term(terms: Seq<Seq<char>>, t: Seq<char>)
    requires
        sound_terms(terms),
    ensures
        sound_terms(add_term(terms, t)),
        terms.len() <= add_term(terms, t).len() <= terms.len() + 1,
{
    let n = normalize(t);
    if n.len() > 0 && !terms.contains(n) {
        let r = terms.push(n);
        assert forall|i: int, j: int| 0 <= i < r.len() && 0 <= j < r.len() && i != j implies r[i]
            != r[j] by {
            if i == terms.len() as int {
                assert(terms[j] == r[j]);
            } else if j == terms.len() as int {
                assert(terms[i] == r[i]);
            }
        }
    }
}

proof fn lemma_scan_expansions_sound(terms: Seq<Seq<char>>, es: Seq<Seq<char>>, max: nat)
    requires
        sound_terms(terms),
        terms.len() < max,
    ensures
        sound_terms(scan_expansions(terms, es, max).0),
        scan_expansions(terms, es, max).0.len() <= max,
        !scan_expansions(terms, es, max).1 ==> scan_expansions(terms, es, max).0.len() < max,
    decreases es.len(),
{
    if es.len() > 0 {
        lemma_scan_expansions_sound(terms, es.drop_last(), max);
        let prev = scan_expansions(terms, es.drop_last(), max).0;
        lemma_add_term(prev, es.last());
    }
}

proof fn lemma_scan_tokens_sound(tokens: Seq<Seq<char>>, exps: Seq<Seq<Seq<char>>>, max: nat)
    ensures
        sound_terms(scan_tokens(tokens, exps, max).0),
        scan_tokens(tokens, exps, max).0.len() <= max + 1,
        !scan_tokens(tokens, exps, max).1 ==> scan_tokens(tokens, exps, max).0.len() <= max,
    decreases tokens.len(),
{
    if tokens.len() > 0 {
        lemma_scan_tokens_sound(tokens.drop_last(), exps, max);
        let prev = scan_tokens(tokens.drop_last(), exps, max).0;
        lemma_add_term(prev, tokens.last());
        let with_token = add_term(prev, tokens.last());
        if with_token.len() < max {
            lemma_scan_expansions_sound(with_token, exps[tokens.len() - 1], max);
        }
    } else {
        assert(sound_terms(Seq::<Seq<char>>::empty()));
    }
}

proof fn lemma_scan_entities_sound(terms: Seq<Seq<char>>, values: Seq<Seq<char>>, max: nat)
    requires
        sound_terms(terms),
        terms.len() <= max + 1,
    ensures
        sound_terms(scan_entities(terms, values, max)),
        scan_entities(terms, values, max).len() <= max + 1,
    decreases values.len(),
{
    if values.len() > 0 {
        lemma_scan_entities_sound(terms, values.drop_last(), max);
        let prev = scan_entities(terms, values.drop_last(), max);
        lemma_add_term(prev, normalize(values.last()));
    }
}

/// Whatever the provider answers, an expansion holds each term once, no
/// empty term, and at most one term more than its budget.
pub proof fn law_expansion_terms_sound(
    normalized: Seq<char>,
    exps: Seq<Seq<Seq<char>>>,
    entity_vals: Seq<Seq<char>>,
    max: nat,
)
    ensures
        expansion_terms(normalized, exps, entity_vals, max).no_duplicates(),
        forall|i: int|
            0 <= i < expansion_terms(normalized, exps, entity_vals, max).len() ==> #[trigger] expansion_terms(
                normalized,
                exps,
                entity_vals,
                max,
            )[i].len() > 0,
        expansion_terms(normalized, exps, entity_vals, max).len() <= max + 1,
{
    lemma_scan_tokens_sound(tokens_of(normalized), exps, max);
    lemma_scan_entities_sound(scan_tokens(tokens_of(normalized), exps, max).0, entity_vals, max);
}

/// What a lookup gives back of a static entry: after `term` is given
/// `expansions`, its normalized form expands to their normalized, non-empty
/// forms; every other term expands as before.
pub proof fn law_static_terms_lookup(
    before: Map<Seq<char>, Seq<Seq<char>>>,
    term: Seq<char>,
    expansions: Seq<Seq<char>>,
    query: Seq<char>,
)
    ensures
        ({
            let after = before.insert(normalize(term), normalized_terms(expansions));
            let answer = |m: Map<Seq<char>, Seq<Seq<char>>>, q: Seq<char>|
                if m.contains_key(q) {
                    m[q]
                } else {
                    default_expansion_of(q)
                };
            &&& answer(after, normalize(term)) == normalized_terms(expansions)
            &&& query != normalize(term) ==> answer(after, query) == answer(before, query)
        }),
{
}

/// What the static provider answers for a token is its entry when it has
/// one (so a static entry replaces the built-in expansions), and the
/// built-in expansions otherwise.
pub proof fn law_static_provider_answers(
    provider: StaticTermExpansionProvider,
    token: Seq<char>,
    answer: Seq<Seq<char>>,
)
    requires
        provider_answers(provider, token, answer),
    ensures
        answer == if provider@.contains_key(token) {
            provider@[token]
        } else {
            default_expansion_of(token)
        },
{
    let (s, v) = choose|s: &str, v: Vec<String>|
        s@ == token && strings(v@) == answer && call_ensures(
            StaticTermExpansionProvider::expand_term,
            (&provider, s),
            v,
        );
}

proof fn lemma_add_term_keeps(terms: Seq<Seq<char>>, t: Seq<char>)
    ensures
        forall|x: Seq<char>| terms.contains(x) ==> add_term(terms, t).contains(x),
        normalize(t).len() > 0 ==> add_term(terms, t).contains(normalize(t)),
        add_term(terms, t).len() >= terms.len(),
{
    let n = normalize(t);
    if n.len() > 0 && !terms.contains(n) {
        let r = terms.push(n);
        assert forall|x: Seq<char>| terms.contains(x) implies r.contains(x) by {
            let j = choose|j: int| 0 <= j < terms.len() && terms[j] == x;
            assert(r[j] == x);
        }
        assert(r[terms.len() as int] == n);
    }
}

proof fn lemma_scan_entities_covers(terms: Seq<Seq<char>>, values: Seq<Seq<char>>, max: nat)
    ensures
        scan_entities(terms, values, max).len() < max ==> forall|k: int|
            0 <= k < values.len() && normalize(normalize(#[trigger] values[k])).len() > 0
                ==> scan_entities(terms, values, max).contains(normalize(normalize(values[k]))),
    decreases values.len(),
{
    if values.len() > 0 {
        let init = values.drop_last();
        lemma_scan_entities_covers(terms, init, max);
        let prev = scan_entities(terms, init, max);
        let r = scan_entities(terms, values, max);
        if prev.len() < max {
            lemma_add_term_keeps(prev, normalize(values.last()));
            if r.len() < max {
                assert forall|k: int|
                    0 <= k < values.len() && normalize(normalize(#[trigger] values[k])).len() > 0
                        implies r.contains(normalize(normalize(values[k]))) by {
                    if k < init.len() {
                        assert(init[k] == values[k]);
                    }
                }
            }
        }
    }
}

/// Unless the budget is reached, every entity of the query whose value
/// normalizes to a non-empty text is among the expansion's terms, in its
/// normalized form.
pub proof fn law_expansion_includes_entities(
    normalized: Seq<char>,
    exps: Seq<Seq<Seq<char>>>,
    entity_vals: Seq<Seq<char>>,
    max: nat,
)
    ensures
        expansion_terms(normalized, exps, entity_vals, max).len() < max ==> forall|k: int|
            0 <= k < entity_vals.len() && normalize(normalize(#[trigger] entity_vals[k])).len() > 0
                ==> expansion_terms(normalized, exps, entity_vals, max).contains(
                normalize(normalize(entity_vals[k])),
            ),
{
    lemma_scan_entities_covers(scan_tokens(tokens_of(normalized), exps, max).0, entity_vals, max);
}

} // verus!
