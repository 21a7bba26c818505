//! Conversation memory: messages, token counting, sliding-window truncation
//! and conversation sessions.
use vstd::prelude::*;

use crate::json::{JsonView, Metadata};
use crate::text::{chars_of, split_whitespace, split_ws, split_ws_from, words};

verus! {

// ---------------------------------------------------------------------------
// Messages
// ---------------------------------------------------------------------------

/// Who wrote a message.
#[derive(Debug, Clone, Copy, PartialEq, Eq, Hash, Structural)]
pub enum Role {
    System,
    User,
    Assistant,
    Tool,
}

/// Identifier of a conversation (a UUID, as its 128-bit value).
#[derive(Debug, Clone, Copy, PartialEq, Eq, Hash, Structural)]
pub struct ConversationId(pub u128);

/// A fresh random (version 4) UUID as its 128-bit value
/// (`uuid::Uuid::new_v4`); nothing is promised of the value.
#[verifier::external_body]
fn random_uuid() -> (r: u128) {
    uuid::Uuid::new_v4().as_u128()
}

/// A fresh time-ordered (version 7) UUID as its 128-bit value
/// (`uuid::Uuid::now_v7`); nothing is promised of the value.
#[verifier::external_body]
fn time_ordered_uuid() -> (r: u128) {
    uuid::Uuid::now_v7().as_u128()
}

impl ConversationId {
    /// A fresh random conversation identifier.
    pub fn new() -> (r: Self) {
        ConversationId(random_uuid())
    }
}

/// A message of a conversation.
#[derive(Debug)]
pub struct Message {
    pub id: u128,
    pub conversation_id: ConversationId,
    pub role: Role,
    pub content: String,
    pub metadata: Metadata,
}

/// What a message holds.
pub struct MessageView {
    pub id: u128,
    pub conversation_id: ConversationId,
    pub role: Role,
    pub content: Seq<char>,
    pub metadata: Map<Seq<char>, JsonView>,
}

impl View for Message {
    type V = MessageView;

    open spec fn view(&self) -> MessageView {
        MessageView {
            id: self.id,
            conversation_id: self.conversation_id,
            role: self.role,
            content: self.content@,
            metadata: self.metadata@,
        }
    }
}

/// The views of a sequence of messages.
pub open spec fn message_views(ms: Seq<Message>) -> Seq<MessageView> {
    ms.map_values(|m: Message| m@)
}

impl Message {
    /// A new message of a conversation, with a fresh time-ordered id.
    pub fn new(conversation_id: ConversationId, role: Role, content: String, metadata: Metadata) -> (r: Self)
        ensures
            r.conversation_id == conversation_id,
            r.role == role,
            r.content == content,
            r.metadata == metadata,
    {
        Message { id: time_ordered_uuid(), conversation_id, role, content, metadata }
    }

    /// A copy of this message.
    pub fn copy(&self) -> (r: Self)
        ensures
            r@ == self@,
    {
        Message {
            id: self.id,
            conversation_id: self.conversation_id,
            role: self.role,
            content: self.content.clone(),
            metadata: self.metadata.copy(),
        }
    }
}

impl Clone for Message {
    fn clone(&self) -> (r: Self)
        ensures
            r@ == self@,
    {
        self.copy()
    }
}

// ---------------------------------------------------------------------------
// Token counting
// ---------------------------------------------------------------------------

/// Fixed token overhead charged for a message of the given role.
pub open spec fn role_cost(role: Role) -> nat {
    match role {
        Role::System => 4,
        Role::User | Role::Assistant => 3,
        Role::Tool => 5,
    }
}

/// Fixed token overhead charged for a message of the given role.
pub fn role_token_cost(role: &Role) -> (r: usize)
    ensures
        r == role_cost(*role),
{
    match role {
        Role::System => 4,
        Role::User | Role::Assistant => 3,
        Role::Tool => 5,
    }
}

/// The token cost of a message of role `role` whose content counts
/// `content_tokens` tokens: the role overhead plus that count, saturating at
/// `usize::MAX`.
pub open spec fn message_cost(role: Role, content_tokens: nat) -> nat {
    if role_cost(role) + content_tokens > usize::MAX {
        usize::MAX as nat
    } else {
        role_cost(role) + content_tokens
    }
}

/// The token cost of a message of role `role` whose content counts
/// `content_tokens` tokens.
pub fn message_token_cost(role: &Role, content_tokens: usize) -> (r: usize)
    ensures
        r == message_cost(*role, content_tokens as nat),
{
    role_token_cost(role).saturating_add(content_tokens)
}

/// Counts the tokens of texts and messages.
pub trait TokenCounter: Send + Sync {
    fn count_tokens(&self, text: &str) -> usize;

    /// The role overhead plus the tokens of the content (saturating at
    /// `usize::MAX`), `t` being what `count_tokens` answered for the content.
    fn count_message_tokens(&self, message: &Message) -> (r: usize)
        default_ensures
            exists|s: &str, t: usize|
                #![auto]
                s@ == message.content@ && call_ensures(Self::count_tokens, (self, s), t) && r
                    == message_cost(message.role, t as nat),
    {
        let content: &str = message.content.as_str();
        let t = self.count_tokens(content);
        assert(call_ensures(Self::count_tokens, (self, content), t));
        message_token_cost(&message.role, t)
    }
}

/// `n / 4` rounded up.
pub open spec fn quarter_up(n: nat) -> nat {
    (n + 3) / 4
}

/// Approximate tokens of a word: a quarter of its characters, rounded up,
/// and at least one.
pub open spec fn word_tokens(w: Seq<char>) -> nat {
    if quarter_up(w.len()) >= 1 {
        quarter_up(w.len())
    } else {
        1
    }
}

/// The sum of `word_tokens` over the words.
pub open spec fn words_tokens(ws: Seq<Seq<char>>) -> nat
    decreases ws.len(),
{
    if ws.len() == 0 {
        0
    } else {
        words_tokens(ws.drop_last()) + word_tokens(ws.last())
    }
}

/// The sum of the lengths of the words.
pub open spec fn total_len(ws: Seq<Seq<char>>) -> nat
    decreases ws.len(),
{
    if ws.len() == 0 {
        0
    } else {
        total_len(ws.drop_last()) + ws.last().len()
    }
}

/// The approximate token count of a text: the larger of the approximate
/// tokens of its words and a quarter of its characters, rounded up.
pub open spec fn approximate_tokens(text: Seq<char>) -> nat {
    let wordish = words_tokens(split_ws(text));
    let overall = quarter_up(text.len());
    if wordish >= overall {
        wordish
    } else {
        overall
    }
}

proof fn lemma_words_tokens_le_len(ws: Seq<Seq<char>>)
    requires
        forall|i: int| 0 <= i < ws.len() ==> (#[trigger] ws[i]).len() > 0,
    ensures
        words_tokens(ws) <= total_len(ws),
    decreases ws.len(),
{
    if ws.len() > 0 {
        let init = ws.drop_last();
        assert forall|i: int| 0 <= i < init.len() implies (#[trigger] init[i]).len() > 0 by {
            assert(init[i] == ws[i]);
        }
        lemma_words_tokens_le_len(init);
        assert(ws.last() == ws[ws.len() - 1]);
    }
}

proof fn lemma_split_total(s: Seq<char>, i: int, cur: Seq<char>, acc: Seq<Seq<char>>)
    requires
        0 <= i <= s.len(),
        forall|j: int| 0 <= j < acc.len() ==> (#[trigger] acc[j]).len() > 0,
    ensures
        total_len(split_ws_from(s, i, cur, acc)) <= total_len(acc) + cur.len() + (s.len() - i),
        forall|j: int|
            0 <= j < split_ws_from(s, i, cur, acc).len() ==> (#[trigger] split_ws_from(
                s,
                i,
                cur,
                acc,
            )[j]).len() > 0,
    decreases s.len() - i,
{
    if i >= s.len() {
        if cur.len() > 0 {
            let r = acc.push(cur);
            assert(r.drop_last() =~= acc);
            assert forall|j: int| 0 <= j < r.len() implies (#[trigger] r[j]).len() > 0 by {
                if j < acc.len() {
                    assert(r[j] == acc[j]);
                }
            }
        }
    } else if crate::text::is_white_space(s[i]) {
        let acc2 = if cur.len() > 0 {
            acc.push(cur)
        } else {
            acc
        };
        if cur.len() > 0 {
            assert(acc2.drop_last() =~= acc);
        }
        assert forall|j: int| 0 <= j < acc2.len() implies (#[trigger] acc2[j]).len() > 0 by {
            if j < acc.len() {
                assert(acc2[j] == acc[j]);
            }
        }
        lemma_split_total(s, i + 1, Seq::empty(), acc2);
    } else {
        lemma_split_total(s, i + 1, cur.push(s[i]), acc);
    }
}

/// The approximate tokenizer: roughly four characters per token.
#[derive(Debug, Clone, Copy, Default)]
pub struct ApproximateTokenCounter;

impl ApproximateTokenCounter {
    /// The approximate token count of a text.
    pub fn approximate_count(&self, text: &str) -> (r: usize)
        ensures
            r == approximate_tokens(text@),
    {
        let cs = chars_of(text);
        let ws = split_whitespace(&cs);
        proof {
            lemma_split_total(cs@, 0, Seq::empty(), Seq::empty());
            lemma_words_tokens_le_len(words(ws@));
        }
        let ghost wv = words(ws@);
        let mut wordish: usize = 0;
        let mut i: usize = 0;
        proof {
            assert(wv.take(0) =~= Seq::<Seq<char>>::empty());
        }
        while i < ws.len()
            invariant
                i <= ws.len(),
                wv == words(ws@),
                wv == split_ws(cs@),
                words_tokens(wv) <= total_len(wv) <= cs.len(),
                forall|j: int| 0 <= j < wv.len() ==> (#[trigger] wv[j]).len() > 0,
                wordish == words_tokens(wv.take(i as int)),
            decreases ws.len() - i,
        {
            proof {
                assert(wv.take(i + 1).drop_last() =~= wv.take(i as int));
                assert(wv.take(i + 1).last() == ws@[i as int]@);
                lemma_words_tokens_prefix(wv, i + 1);
            }
            let len = ws[i].len();
            let q = len / 4 + if len % 4 != 0 { 1usize } else { 0usize };
            let t: usize = if q >= 1 { q } else { 1 };
            assert(t == word_tokens(ws@[i as int]@));
            wordish = wordish + t;
            i = i + 1;
        }
        proof {
            assert(wv.take(ws.len() as int) =~= wv);
        }
        let n = cs.len();
        let overall = n / 4 + if n % 4 != 0 { 1usize } else { 0usize };
        if wordish >= overall {
            wordish
        } else {
            overall
        }
    }
}

proof fn lemma_words_tokens_prefix(ws: Seq<Seq<char>>, k: int)
    requires
        0 <= k <= ws.len(),
    ensures
        words_tokens(ws.take(k)) <= words_tokens(ws),
    decreases ws.len() - k,
{
    if k < ws.len() {
        lemma_words_tokens_prefix(ws.drop_last(), k);
        assert(ws.drop_last().take(k) =~= ws.take(k));
    } else {
        assert(ws.take(k) =~= ws);
    }
}

impl TokenCounter for ApproximateTokenCounter {
    fn count_tokens(&self, text: &str) -> (r: usize)
        ensures
            r == approximate_tokens(text@),
    {
        self.approximate_count(text)
    }
}

// ---------------------------------------------------------------------------
// Sliding-window truncation
// ---------------------------------------------------------------------------

/// A message that competes for the window: any message, or with
/// `preserve_system`, any message that is not a system message.
pub open spec fn is_candidate(m: MessageView, preserve_system: bool) -> bool {
    !(preserve_system && m.role == Role::System)
}

/// Positions of the candidate messages, in order.
pub open spec fn candidate_positions(ms: Seq<MessageView>, preserve_system: bool) -> Seq<int>
    decreases ms.len(),
{
    if ms.len() == 0 {
        Seq::empty()
    } else if is_candidate(ms.last(), preserve_system) {
        candidate_positions(ms.drop_last(), preserve_system).push(ms.len() - 1)
    } else {
        candidate_positions(ms.drop_last(), preserve_system)
    }
}

/// The system messages, in order.
pub open spec fn system_messages(ms: Seq<MessageView>) -> Seq<MessageView>
    decreases ms.len(),
{
    if ms.len() == 0 {
        Seq::empty()
    } else if ms.last().role == Role::System {
        system_messages(ms.drop_last()).push(ms.last())
    } else {
        system_messages(ms.drop_last())
    }
}

/// The sum of the last `k` costs.
pub open spec fn suffix_cost(costs: Seq<nat>, k: nat) -> nat
    decreases k,
{
    if k == 0 || k > costs.len() {
        0
    } else {
        suffix_cost(costs, (k - 1) as nat) + costs[costs.len() - k]
    }
}

/// `k` is the number of trailing candidates the window keeps: none when
/// there are none; otherwise at least the last one, and as many as fit in
/// `max` tokens together, but no more.
pub open spec fn window_fits(costs: Seq<nat>, max: nat, k: nat) -> bool {
    if costs.len() == 0 {
        k == 0
    } else {
        &&& 1 <= k <= costs.len()
        &&& (k == 1 || suffix_cost(costs, k) <= max)
        &&& (k < costs.len() ==> suffix_cost(costs, k + 1) > max)
    }
}

/// The number of trailing candidates the window keeps.
pub open spec fn window_size(costs: Seq<nat>, max: nat) -> nat {
    choose|k: nat| window_fits(costs, max, k)
}

proof fn lemma_suffix_cost_mono(costs: Seq<nat>, a: nat, b: nat)
    requires
        a <= b <= costs.len(),
    ensures
        suffix_cost(costs, a) <= suffix_cost(costs, b),
    decreases b - a,
{
    if a < b {
        lemma_suffix_cost_mono(costs, a, (b - 1) as nat);
    }
}

/// Exactly one count fits the window.
pub proof fn lemma_window_size(costs: Seq<nat>, max: nat)
    ensures
        window_fits(costs, max, window_size(costs, max)),
        forall|k: nat| window_fits(costs, max, k) ==> k == window_size(costs, max),
{
    let w = lemma_window_exists(costs, max, 1);
    assert(window_fits(costs, max, w));
    let ws = window_size(costs, max);
    assert forall|k: nat| window_fits(costs, max, k) implies k == ws by {
        lemma_window_unique(costs, max, k, ws);
    }
}

proof fn lemma_window_unique(costs: Seq<nat>, max: nat, a: nat, b: nat)
    requires
        window_fits(costs, max, a),
        window_fits(costs, max, b),
    ensures
        a == b,
{
    if costs.len() > 0 && a != b {
        if a < b {
            lemma_suffix_cost_mono(costs, a + 1, b);
        } else {
            lemma_suffix_cost_mono(costs, b + 1, a);
        }
    }
}

proof fn lemma_window_exists(costs: Seq<nat>, max: nat, k: nat) -> (w: nat)
    requires
        costs.len() > 0 ==> 1 <= k <= costs.len() && (k == 1 || suffix_cost(costs, k) <= max),
    ensures
        window_fits(costs, max, w),
    decreases costs.len() - k,
{
    if costs.len() == 0 {
        0
    } else if k < costs.len() && suffix_cost(costs, k + 1) <= max {
        lemma_window_exists(costs, max, k + 1)
    } else {
        k
    }
}

/// The window of a conversation: with `preserve_system`, all system
/// messages first; then the trailing candidates that fit, as
/// `window_size` counts them, in order.  `costs[i]` is the token cost of
/// `ms[i]`.
pub open spec fn window(ms: Seq<MessageView>, costs: Seq<nat>, max: nat, preserve_system: bool) -> Seq<
    MessageView,
> {
    let pos = candidate_positions(ms, preserve_system);
    let cand_costs = pos.map_values(|p: int| costs[p]);
    let k = window_size(cand_costs, max);
    let kept = pos.subrange(pos.len() - k, pos.len() as int).map_values(|p: int| ms[p]);
    if preserve_system {
        system_messages(ms) + kept
    } else {
        kept
    }
}

proof fn lemma_candidate_positions(ms: Seq<MessageView>, preserve: bool)
    ensures
        forall|i: int|
            0 <= i < candidate_positions(ms, preserve).len() ==> 0 <= #[trigger] candidate_positions(
                ms,
                preserve,
            )[i] < ms.len(),
        forall|i: int, j: int|
            0 <= i < j < candidate_positions(ms, preserve).len() ==> candidate_positions(
                ms,
                preserve,
            )[i] < candidate_positions(ms, preserve)[j],
    decreases ms.len(),
{
    if ms.len() > 0 {
        let init = ms.drop_last();
        lemma_candidate_positions(init, preserve);
        let c = candidate_positions(init, preserve);
        let r = candidate_positions(ms, preserve);
        if is_candidate(ms.last(), preserve) {
            assert(r == c.push(ms.len() - 1));
            assert forall|i: int| 0 <= i < r.len() implies 0 <= #[trigger] r[i] < ms.len() by {
                if i < c.len() {
                    assert(r[i] == c[i]);
                }
            }
            assert forall|i: int, j: int| 0 <= i < j < r.len() implies r[i] < r[j] by {
                assert(r[i] == c[i]);
                if j < c.len() {
                    assert(r[j] == c[j]);
                }
            }
        } else {
            assert(r == c);
        }
    }
}

proof fn lemma_all_candidates(ms: Seq<MessageView>)
    ensures
        candidate_positions(ms, false) =~= Seq::new(ms.len(), |i: int| i),
    decreases ms.len(),
{
    if ms.len() > 0 {
        lemma_all_candidates(ms.drop_last());
    }
}

/// Without system-message preservation the window is the longest suffix
/// of the conversation whose cost fits the budget, but never less than the
/// last message; a conversation that fits is kept whole.
pub proof fn law_window_longest_fitting_suffix(ms: Seq<MessageView>, costs: Seq<nat>, max: nat)
    requires
        costs.len() == ms.len(),
    ensures
        ({
            let w = window(ms, costs, max, false);
            let k = w.len();
            &&& k <= ms.len()
            &&& w == ms.skip(ms.len() - k)
            &&& ms.len() > 0 ==> k >= 1
            &&& k <= 1 || suffix_cost(costs, k) <= max
            &&& k < ms.len() ==> suffix_cost(costs, k + 1) > max
            &&& suffix_cost(costs, ms.len()) <= max ==> w == ms
        }),
{
    let n = ms.len();
    lemma_all_candidates(ms);
    let pos = candidate_positions(ms, false);
    let cand_costs = pos.map_values(|p: int| costs[p]);
    assert(cand_costs =~= costs);
    let k = window_size(costs, max);
    lemma_window_size(costs, max);
    let w = window(ms, costs, max, false);
    assert(w =~= ms.skip(n - k));
    if suffix_cost(costs, n) <= max {
        assert(window_fits(costs, max, n));
        assert(ms.skip(0) =~= ms);
    }
}

/// The most recent message that competes for the window is always kept,
/// as the window's last message; with preservation, the window begins with
/// every system message, in order.
pub proof fn law_window_keeps_latest(ms: Seq<MessageView>, costs: Seq<nat>, max: nat, preserve_system: bool)
    requires
        costs.len() == ms.len(),
    ensures
        candidate_positions(ms, preserve_system).len() > 0 ==> window(
            ms,
            costs,
            max,
            preserve_system,
        ).last() == ms[candidate_positions(ms, preserve_system).last()],
        preserve_system ==> window(ms, costs, max, preserve_system).take(
            system_messages(ms).len() as int,
        ) == system_messages(ms),
{
    let pos = candidate_positions(ms, preserve_system);
    let cand_costs = pos.map_values(|p: int| costs[p]);
    lemma_window_size(cand_costs, max);
    let k = window_size(cand_costs, max);
    let kept = pos.subrange(pos.len() - k, pos.len() as int).map_values(|p: int| ms[p]);
    if preserve_system {
        let w = system_messages(ms) + kept;
        assert(w.take(system_messages(ms).len() as int) =~= system_messages(ms));
    }
}

/// The candidate messages of a conversation, in order.
pub open spec fn candidate_messages(ms: Seq<MessageView>, preserve_system: bool) -> Seq<MessageView> {
    candidate_positions(ms, preserve_system).map_values(|p: int| ms[p])
}

proof fn lemma_candidates_are_candidates(ms: Seq<MessageView>, preserve: bool)
    ensures
        forall|i: int|
            0 <= i < candidate_positions(ms, preserve).len() ==> is_candidate(
                ms[#[trigger] candidate_positions(ms, preserve)[i]],
                preserve,
            ),
    decreases ms.len(),
{
    if ms.len() > 0 {
        let init = ms.drop_last();
        lemma_candidates_are_candidates(init, preserve);
        lemma_candidate_positions(init, preserve);
        let c = candidate_positions(init, preserve);
        let r = candidate_positions(ms, preserve);
        assert forall|i: int| 0 <= i < r.len() implies is_candidate(ms[#[trigger] r[i]], preserve) by {
            if i < c.len() {
                assert(r[i] == c[i]);
                assert(ms[c[i]] == init[c[i]]);
            }
        }
    }
}

proof fn lemma_system_messages_are_system(ms: Seq<MessageView>)
    ensures
        forall|i: int|
            0 <= i < system_messages(ms).len() ==> (#[trigger] system_messages(ms)[i]).role
                == Role::System,
    decreases ms.len(),
{
    if ms.len() > 0 {
        lemma_system_messages_are_system(ms.drop_last());
        let prev = system_messages(ms.drop_last());
        if ms.last().role == Role::System {
            assert forall|i: int| 0 <= i < prev.push(ms.last()).len() implies (
            #[trigger] prev.push(ms.last())[i]).role == Role::System by {
                if i < prev.len() {
                    assert(prev.push(ms.last())[i] == prev[i]);
                }
            }
        }
    }
}

proof fn lemma_split_system(s: Seq<MessageView>, k: Seq<MessageView>)
    requires
        forall|i: int| 0 <= i < s.len() ==> (#[trigger] s[i]).role == Role::System,
        forall|i: int| 0 <= i < k.len() ==> (#[trigger] k[i]).role != Role::System,
    ensures
        candidate_positions(s + k, true) =~= Seq::new(k.len(), |i: int| s.len() + i),
        system_messages(s + k) =~= s,
    decreases s.len() + k.len(),
{
    if k.len() > 0 {
        assert((s + k).drop_last() =~= s + k.drop_last());
        lemma_split_system(s, k.drop_last());
        assert((s + k).last() == k.last());
    } else if s.len() > 0 {
        assert(s + k =~= s);
        assert(s.drop_last() + k =~= s.drop_last());
        lemma_split_system(s.drop_last(), k);
        assert(s.drop_last().push(s.last()) =~= s);
    } else {
        assert(s + k =~= Seq::<MessageView>::empty());
    }
}

proof fn lemma_suffix_cost_tail(a: Seq<nat>, b: Seq<nat>, k: nat)
    requires
        k <= a.len(),
        k <= b.len(),
        a.skip(a.len() - k) =~= b.skip(b.len() - k),
    ensures
        suffix_cost(a, k) == suffix_cost(b, k),
    decreases k,
{
    if k > 0 {
        assert(a.skip(a.len() - k)[0] == a[a.len() - k]);
        assert(b.skip(b.len() - k)[0] == b[b.len() - k]);
        assert(a.skip(a.len() - (k - 1)) =~= a.skip(a.len() - k).skip(1));
        assert(b.skip(b.len() - (k - 1)) =~= b.skip(b.len() - k).skip(1));
        lemma_suffix_cost_tail(a, b, (k - 1) as nat);
    }
}

proof fn lemma_window_shape(ms: Seq<MessageView>, cost: spec_fn(MessageView) -> nat, max: nat, preserve: bool)
    ensures
        ({
            let cand = candidate_messages(ms, preserve);
            let k = window_size(cand.map_values(cost), max);
            &&& k <= cand.len()
            &&& window(ms, ms.map_values(cost), max, preserve) == (if preserve {
                system_messages(ms)
            } else {
                Seq::empty()
            }) + cand.skip(cand.len() - k)
        }),
{
    lemma_candidate_positions(ms, preserve);
    let pos = candidate_positions(ms, preserve);
    let costs = ms.map_values(cost);
    let cand = candidate_messages(ms, preserve);
    assert(pos.map_values(|p: int| costs[p]) =~= cand.map_values(cost));
    let k = window_size(cand.map_values(cost), max);
    lemma_window_size(cand.map_values(cost), max);
    let kept = pos.subrange(pos.len() - k, pos.len() as int).map_values(|p: int| ms[p]);
    assert(kept =~= cand.skip(cand.len() - k));
    if !preserve {
        assert(Seq::<MessageView>::empty() + kept =~= kept);
    }
}

/// Truncating a window again, with the same budget and the same cost of
/// each message, gives the same window.
pub proof fn law_window_idempotent(
    ms: Seq<MessageView>,
    cost: spec_fn(MessageView) -> nat,
    max: nat,
    preserve_system: bool,
)
    ensures
        ({
            let w = window(ms, ms.map_values(cost), max, preserve_system);
            window(w, w.map_values(cost), max, preserve_system) == w
        }),
{
    let cand = candidate_messages(ms, preserve_system);
    let cc = cand.map_values(cost);
    let k = window_size(cc, max);
    lemma_window_shape(ms, cost, max, preserve_system);
    lemma_window_size(cc, max);
    let kept = cand.skip(cand.len() - k);
    let w = window(ms, ms.map_values(cost), max, preserve_system);
    lemma_candidate_positions(ms, preserve_system);
    lemma_candidates_are_candidates(ms, preserve_system);
    let pos = candidate_positions(ms, preserve_system);
    if preserve_system {
        lemma_system_messages_are_system(ms);
        let sys = system_messages(ms);
        assert forall|i: int| 0 <= i < kept.len() implies (#[trigger] kept[i]).role != Role::System by {
            let j = cand.len() - k + i;
            assert(kept[i] == cand[j]);
            assert(cand[j] == ms[pos[j]]);
            assert(is_candidate(ms[pos[j]], true));
        }
        assert(w == sys + kept);
        lemma_split_system(sys, kept);
        assert(candidate_messages(w, true) =~= kept);
    } else {
        lemma_all_candidates(ms);
        assert(w =~= kept);
        lemma_all_candidates(w);
        assert(candidate_messages(w, false) =~= kept);
    }
    assert(candidate_messages(w, preserve_system) == kept);
    let kc = kept.map_values(cost);
    assert(kc =~= cc.skip(cc.len() - k));
    assert(kc.skip(0) =~= kc);
    lemma_suffix_cost_tail(kc, cc, k);
    if k > 0 {
        assert(window_fits(kc, max, k));
    } else {
        assert(kc.len() == 0);
        assert(window_fits(kc, max, 0));
    }
    lemma_window_size(kc, max);
    lemma_window_shape(w, cost, max, preserve_system);
    assert(kept.skip(0) =~= kept);
    if preserve_system {
        assert(system_messages(w) == system_messages(ms));
    } else {
        assert(Seq::<MessageView>::empty() + kept =~= kept);
    }
}

/// Positions of the candidate messages.
fn candidates(messages: &[Message], preserve: bool) -> (r: Vec<usize>)
    ensures
        r@.map_values(|p: usize| p as int) == candidate_positions(message_views(messages@), preserve),
        forall|i: int| 0 <= i < r.len() ==> r@[i] < messages.len(),
{
    let ghost mv = message_views(messages@);
    let mut r: Vec<usize> = Vec::new();
    let mut i: usize = 0;
    proof {
        assert(r@.map_values(|p: usize| p as int) =~= candidate_positions(mv.take(0), preserve));
    }
    while i < messages.len()
        invariant
            i <= messages.len(),
            mv == message_views(messages@),
            r@.map_values(|p: usize| p as int) == candidate_positions(mv.take(i as int), preserve),
            forall|j: int| 0 <= j < r.len() ==> r@[j] < i,
        decreases messages.len() - i,
    {
        proof {
            assert(mv.take(i + 1).drop_last() =~= mv.take(i as int));
            assert(mv.take(i + 1).last() == messages@[i as int]@);
        }
        if !(preserve && messages[i].role == Role::System) {
            let ghost before = r@;
            r.push(i);
            proof {
                assert(r@.map_values(|p: usize| p as int) =~= before.map_values(|p: usize| p as int).push(
                    i as int,
                ));
            }
        }
        i = i + 1;
    }
    proof {
        assert(mv.take(messages.len() as int) =~= mv);
    }
    r
}

/// Copies of the system messages followed by copies of the messages at the
/// last `k` of the candidate positions `pos`.
fn assemble(messages: &[Message], pos: &Vec<usize>, k: usize, preserve: bool) -> (r: Vec<Message>)
    requires
        k <= pos.len(),
        forall|i: int| 0 <= i < pos.len() ==> pos@[i] < messages.len(),
    ensures
        message_views(r@) == {
            let mv = message_views(messages@);
            let kept = pos@.map_values(|p: usize| p as int).subrange(
                pos.len() - k,
                pos.len() as int,
            ).map_values(|p: int| mv[p]);
            if preserve {
                system_messages(mv) + kept
            } else {
                kept
            }
        },
{
    let ghost mv = message_views(messages@);
    let mut r: Vec<Message> = Vec::new();
    proof {
        assert(message_views(r@) =~= Seq::<MessageView>::empty());
    }
    if preserve {
        let mut i: usize = 0;
        proof {
            assert(message_views(r@) =~= system_messages(mv.take(0)));
        }
        while i < messages.len()
            invariant
                i <= messages.len(),
                mv == message_views(messages@),
                message_views(r@) == system_messages(mv.take(i as int)),
            decreases messages.len() - i,
        {
            proof {
                assert(mv.take(i + 1).drop_last() =~= mv.take(i as int));
                assert(mv.take(i + 1).last() == messages@[i as int]@);
            }
            if messages[i].role == Role::System {
                let m = messages[i].copy();
                let ghost before = message_views(r@);
                let ghost v = m@;
                r.push(m);
                proof {
                    assert(message_views(r@) =~= before.push(v));
                }
            }
            i = i + 1;
        }
        proof {
            assert(mv.take(messages.len() as int) =~= mv);
        }
    }
    let ghost prefix = message_views(r@);
    let ghost pv = pos@.map_values(|p: usize| p as int);
    let start = pos.len() - k;
    let mut j: usize = start;
    proof {
        assert(message_views(r@) =~= prefix + pv.subrange(start as int, j as int).map_values(|p: int| mv[p]));
    }
    while j < pos.len()
        invariant
            start <= j <= pos.len(),
            start == pos.len() - k,
            mv == message_views(messages@),
            pv == pos@.map_values(|p: usize| p as int),
            forall|i: int| 0 <= i < pos.len() ==> pos@[i] < messages.len(),
            message_views(r@) == prefix + pv.subrange(start as int, j as int).map_values(
                |p: int| mv[p],
            ),
        decreases pos.len() - j,
    {
        let m = messages[pos[j]].copy();
        let ghost before = message_views(r@);
        let ghost v = m@;
        r.push(m);
        proof {
            assert(message_views(r@) =~= before.push(v));
            assert(pv.subrange(start as int, j + 1).map_values(|p: int| mv[p]) =~= pv.subrange(
                start as int,
                j as int,
            ).map_values(|p: int| mv[p]).push(mv[pos@[j as int] as int]));
        }
        j = j + 1;
    }
    r
}

/// `cost` is an answer the counter can give for the message `m`: a call
/// of its `count_message_tokens` on `m` may return it.
pub open spec fn counter_answers<T: TokenCounter>(counter: T, m: Message, cost: nat) -> bool {
    cost <= usize::MAX && call_ensures(T::count_message_tokens, (&counter, &m), cost as usize)
}

/// Keeps the most recent messages of a conversation within a token budget.
#[derive(Debug, Clone)]
pub struct SlidingWindowTruncator<T> {
    max_tokens: usize,
    counter: T,
    preserve_system_messages: bool,
}

impl<T> SlidingWindowTruncator<T> {
    /// The token budget.
    pub closed spec fn budget(&self) -> nat {
        self.max_tokens as nat
    }

    /// Whether system messages are always kept.
    pub closed spec fn preserves_system(&self) -> bool {
        self.preserve_system_messages
    }

    /// The token counter.
    pub closed spec fn token_counter(&self) -> T {
        self.counter
    }
}

impl SlidingWindowTruncator<ApproximateTokenCounter> {
    /// A truncator with the approximate counter, a budget of `max_tokens`
    /// (at least one) and system messages preserved.
    pub fn new(max_tokens: usize) -> (r: Self)
        ensures
            r.budget() == if max_tokens >= 1 {
                max_tokens
            } else {
                1
            },
            r.preserves_system(),
    {
        SlidingWindowTruncator {
            max_tokens: if max_tokens >= 1 { max_tokens } else { 1 },
            counter: ApproximateTokenCounter,
            preserve_system_messages: true,
        }
    }
}

impl Default for SlidingWindowTruncator<ApproximateTokenCounter> {
    /// A truncator with a budget of 4000 tokens.
    fn default() -> (r: Self)
        ensures
            r.budget() == 4000,
            r.preserves_system(),
    {
        SlidingWindowTruncator::new(4000)
    }
}

impl<T: TokenCounter> SlidingWindowTruncator<T> {
    /// A truncator with the given counter, a budget of `max_tokens` (at
    /// least one) and system messages preserved.
    pub fn with_counter(max_tokens: usize, counter: T) -> (r: Self)
        ensures
            r.budget() == if max_tokens >= 1 {
                max_tokens
            } else {
                1
            },
            r.preserves_system(),
            r.token_counter() == counter,
    {
        SlidingWindowTruncator {
            max_tokens: if max_tokens >= 1 { max_tokens } else { 1 },
            counter,
            preserve_system_messages: true,
        }
    }

    /// This truncator with system-message preservation set to `preserve`.
    pub fn preserve_system_messages(self, preserve: bool) -> (r: Self)
        ensures
            r.budget() == self.budget(),
            r.preserves_system() == preserve,
            r.token_counter() == self.token_counter(),
    {
        SlidingWindowTruncator {
            max_tokens: self.max_tokens,
            counter: self.counter,
            preserve_system_messages: preserve,
        }
    }

    /// The token budget.
    pub fn max_tokens(&self) -> (r: usize)
        ensures
            r == self.budget(),
    {
        self.max_tokens
    }

    /// The total token cost of the messages as the counter reports it
    /// (saturating at `usize::MAX`).
    pub fn token_count(&self, messages: &[Message]) -> (r: usize)
        ensures
            exists|costs: Seq<nat>|
                {
                    &&& costs.len() == messages.len()
                    &&& forall|i: int|
                        0 <= i < messages.len() ==> counter_answers(
                            self.token_counter(),
                            messages@[i],
                            #[trigger] costs[i],
                        )
                    &&& r == saturated_sum(costs)
                },
    {
        let ghost mut costs: Seq<nat> = Seq::empty();
        let mut total: usize = 0;
        let mut i: usize = 0;
        while i < messages.len()
            invariant
                i <= messages.len(),
                costs.len() == i,
                total == saturated_sum(costs),
                forall|j: int|
                    0 <= j < i ==> counter_answers(self.counter, messages@[j], #[trigger] costs[j]),
            decreases messages.len() - i,
        {
            let t = self.counter.count_message_tokens(&messages[i]);
            proof {
                assert(costs.push(t as nat).drop_last() =~= costs);
                costs = costs.push(t as nat);
            }
            assert(counter_answers(self.counter, messages@[i as int], costs[i as int]));
            total = total.saturating_add(t);
            i = i + 1;
        }
        total
    }

    /// The window of a conversation for the token costs `costs` (one per
    /// message).
    pub fn truncate_with_costs(&self, messages: &[Message], costs: &[usize]) -> (r: Vec<Message>)
        requires
            costs.len() == messages.len(),
        ensures
            message_views(r@) == window(
                message_views(messages@),
                costs@.map_values(|c: usize| c as nat),
                self.budget(),
                self.preserves_system(),
            ),
    {
        let pos = candidates(messages, self.preserve_system_messages);
        let ghost cc = pos@.map_values(|p: usize| costs@[p as int] as nat);
        let max = self.max_tokens;
        let mut k: usize = 0;
        let mut used: usize = 0;
        let mut fits = true;
        while k < pos.len() && fits
            invariant
                k <= pos.len(),
                max == self.max_tokens,
                costs.len() == messages.len(),
                forall|i: int| 0 <= i < pos.len() ==> pos@[i] < messages.len(),
                cc == pos@.map_values(|p: usize| costs@[p as int] as nat),
                used == suffix_cost(cc, k as nat),
                k <= 1 || used <= max,
                pos.len() > 0 && !fits ==> k >= 1 && suffix_cost(cc, (k + 1) as nat) > max,
                !fits ==> k < pos.len(),
            decreases pos.len() - k + if fits { 1int } else { 0int },
        {
            let t = costs[pos[pos.len() - 1 - k]];
            assert(t == cc[cc.len() - (k + 1)]);
            if k == 0 || (used <= max && t <= max - used) {
                used = if k == 0 { t } else { used + t };
                k = k + 1;
            } else {
                fits = false;
            }
        }
        proof {
            lemma_window_size(cc, max as nat);
            assert(window_fits(cc, max as nat, k as nat));
            assert(cc == pos@.map_values(|p: usize| p as int).map_values(|p: int| costs@.map_values(|c: usize| c as nat)[p]));
        }
        assemble(messages, &pos, k, self.preserve_system_messages)
    }

    /// The window of a conversation within the token budget: with system
    /// messages preserved, every system message first; then the most recent
    /// other messages, in order, as many as fit in the budget together but
    /// always at least the last one.  `costs` stands for the costs the
    /// counter reported.
    pub fn truncate(&self, messages: &[Message]) -> (r: Vec<Message>)
        ensures
            exists|costs: Seq<nat>|
                {
                    &&& costs.len() == messages.len()
                    &&& message_views(r@) == window(
                        message_views(messages@),
                        costs,
                        self.budget(),
                        self.preserves_system(),
                    )
                    &&& counted_costs_answered(
                        self.token_counter(),
                        messages@,
                        costs,
                        self.budget(),
                        self.preserves_system(),
                    )
                },
    {
        let pos = candidates(messages, self.preserve_system_messages);
        proof {
            lemma_candidate_positions(message_views(messages@), self.preserve_system_messages);
            let pv = pos@.map_values(|p: usize| p as int);
            assert forall|i: int, j: int| 0 <= i < j < pos.len() implies pos@[i] < pos@[j] by {
                assert(pv[i] == pos@[i] as int);
                assert(pv[j] == pos@[j] as int);
            }
        }
        let ghost mut costs: Seq<nat> = Seq::new(messages.len() as nat, |i: int| 0nat);
        let max = self.max_tokens;
        let mut k: usize = 0;
        let mut used: usize = 0;
        let mut fits = true;
        while k < pos.len() && fits
            invariant
                k <= pos.len(),
                max == self.max_tokens,
                costs.len() == messages.len(),
                forall|i: int| 0 <= i < pos.len() ==> pos@[i] < messages.len(),
                forall|i: int, j: int| 0 <= i < j < pos.len() ==> pos@[i] < pos@[j],
                used == suffix_cost(pos@.map_values(|p: usize| costs[p as int]), k as nat),
                k <= 1 || used <= max,
                pos.len() > 0 && !fits ==> k >= 1 && suffix_cost(
                    pos@.map_values(|p: usize| costs[p as int]),
                    (k + 1) as nat,
                ) > max,
                !fits ==> k < pos.len(),
                forall|q: int|
                    pos.len() - (k + if fits { 0int } else { 1int }) <= q < pos.len()
                        ==> counter_answers(
                        self.counter,
                        messages@[pos@[q] as int],
                        #[trigger] costs[pos@[q] as int],
                    ),
            decreases pos.len() - k + if fits { 1int } else { 0int },
        {
            let p = pos[pos.len() - 1 - k];
            let t = self.counter.count_message_tokens(&messages[p]);
            let ghost old_costs = costs;
            proof {
                costs = costs.update(p as int, t as nat);
                lemma_suffix_cost_frame(
                    pos@.map_values(|q: usize| old_costs[q as int]),
                    pos@.map_values(|q: usize| costs[q as int]),
                    k as nat,
                );
                assert(counter_answers(self.counter, messages@[p as int], costs[p as int]));
                assert forall|q: int| pos.len() - k <= q < pos.len() implies counter_answers(
                    self.counter,
                    messages@[pos@[q] as int],
                    #[trigger] costs[pos@[q] as int],
                ) by {
                    assert(pos@[q] != p);
                    assert(costs[pos@[q] as int] == old_costs[pos@[q] as int]);
                }
            }
            assert(t == pos@.map_values(|q: usize| costs[q as int])[pos.len() - (k + 1)]);
            if k == 0 || (used <= max && t <= max - used) {
                used = if k == 0 { t } else { used + t };
                k = k + 1;
            } else {
                fits = false;
            }
        }
        proof {
            lemma_candidate_positions(message_views(messages@), self.preserve_system_messages);
        }
        let ghost cc = pos@.map_values(|p: usize| costs[p as int]);
        proof {
            lemma_window_size(cc, max as nat);
            assert(window_fits(cc, max as nat, k as nat));
            let pi = pos@.map_values(|p: usize| p as int);
            assert(cc == pi.map_values(|p: int| costs[p]));
            let cp = counted_positions(message_views(messages@), costs, max as nat, self.preserve_system_messages);
            assert forall|j: int| 0 <= j < cp.len() implies counter_answers(
                self.counter,
                messages@[#[trigger] cp[j]],
                costs[cp[j]],
            ) by {
                let q = pos.len() - cp.len() + j;
                assert(cp[j] == pi[q]);
                assert(pi[q] == pos@[q] as int);
            }
        }
        assemble(messages, &pos, k, self.preserve_system_messages)
    }
}

/// The positions of the candidates whose costs decide the window: the kept
/// candidates and, when one is left out, the newest candidate left out.
pub open spec fn counted_positions(
    ms: Seq<MessageView>,
    costs: Seq<nat>,
    max: nat,
    preserve_system: bool,
) -> Seq<int> {
    let pos = candidate_positions(ms, preserve_system);
    let k = window_size(pos.map_values(|p: int| costs[p]), max);
    let n = if k < pos.len() {
        k + 1
    } else {
        k
    };
    pos.subrange(pos.len() - n, pos.len() as int)
}

/// The window depends only on the costs it counts: when they agree with a
/// cost function, the window is the one that function gives.  So with a
/// counter that answers the same for the same message, `truncate` keeps the
/// window of the counter's costs.
pub proof fn law_window_decided_by_counted_costs(
    ms: Seq<MessageView>,
    costs: Seq<nat>,
    cost: spec_fn(MessageView) -> nat,
    max: nat,
    preserve_system: bool,
)
    requires
        costs.len() == ms.len(),
        forall|j: int|
            0 <= j < counted_positions(ms, costs, max, preserve_system).len() ==> costs[#[trigger] counted_positions(
                ms,
                costs,
                max,
                preserve_system,
            )[j]] == cost(ms[counted_positions(ms, costs, max, preserve_system)[j]]),
    ensures
        window(ms, costs, max, preserve_system) == window(ms, ms.map_values(cost), max, preserve_system),
{
    lemma_candidate_positions(ms, preserve_system);
    let pos = candidate_positions(ms, preserve_system);
    let c2 = ms.map_values(cost);
    let a = pos.map_values(|p: int| costs[p]);
    let b = pos.map_values(|p: int| c2[p]);
    lemma_window_size(a, max);
    lemma_window_size(b, max);
    let k = window_size(a, max);
    let n = if k < pos.len() {
        k + 1
    } else {
        k
    };
    let cp = counted_positions(ms, costs, max, preserve_system);
    assert forall|i: int| a.len() - n <= i < a.len() implies a[i] == b[i] by {
        let j = i - (pos.len() - n);
        assert(cp[j] == pos[i]);
    }
    if pos.len() > 0 {
        lemma_suffix_cost_frame(a, b, k);
        if k < pos.len() {
            lemma_suffix_cost_frame(a, b, k + 1);
        }
        assert(window_fits(b, max, k));
    } else {
        assert(window_fits(b, max, k));
    }
    assert(window_size(b, max) == k);
}

/// Each cost that decides the window is an answer the counter gives for its
/// message.
pub open spec fn counted_costs_answered<T: TokenCounter>(
    counter: T,
    messages: Seq<Message>,
    costs: Seq<nat>,
    max: nat,
    preserve_system: bool,
) -> bool {
    let cp = counted_positions(message_views(messages), costs, max, preserve_system);
    forall|j: int|
        0 <= j < cp.len() ==> counter_answers(counter, messages[#[trigger] cp[j]], costs[cp[j]])
}

/// Sum of the costs, saturating at `usize::MAX`, adding them in order.
pub open spec fn saturated_sum(costs: Seq<nat>) -> nat
    decreases costs.len(),
{
    if costs.len() == 0 {
        0
    } else {
        let s = saturated_sum(costs.drop_last()) + costs.last();
        if s > usize::MAX {
            usize::MAX as nat
        } else {
            s
        }
    }
}

proof fn lemma_suffix_cost_frame(a: Seq<nat>, b: Seq<nat>, k: nat)
    requires
        a.len() == b.len(),
        k <= a.len(),
        forall|i: int| a.len() - k <= i < a.len() ==> a[i] == b[i],
    ensures
        suffix_cost(a, k) == suffix_cost(b, k),
    decreases k,
{
    if k > 0 {
        lemma_suffix_cost_frame(a, b, (k - 1) as nat);
    }
}

// ---------------------------------------------------------------------------
// Sessions
// ---------------------------------------------------------------------------

/// The current time as whole seconds since the Unix epoch (0 when the
/// clock reads earlier than the epoch).  Nothing is promised of the value.
#[verifier::external_body]
pub(crate) fn now_epoch_seconds() -> (r: u64) {
    std::time::SystemTime::now().duration_since(std::time::UNIX_EPOCH).unwrap_or_default().as_secs()
}

/// The expiry of a session active at `now` with a time-to-live of
/// `ttl_secs` (at least one second), saturating at `u64::MAX`.
pub open spec fn expiry(now: u64, ttl_secs: u64) -> u64 {
    let ttl = if ttl_secs >= 1 {
        ttl_secs
    } else {
        1
    };
    if now + ttl > u64::MAX {
        u64::MAX
    } else {
        (now + ttl) as u64
    }
}

/// A session outlives its last activity: it expires a full time-to-live
/// (at least one second) later, unless that would pass the end of time.
pub proof fn law_session_expires_after_activity(now: u64, ttl_secs: u64)
    ensures
        expiry(now, ttl_secs) >= now,
        now < u64::MAX ==> expiry(now, ttl_secs) > now,
        ttl_secs >= 1 && now + ttl_secs <= u64::MAX ==> expiry(now, ttl_secs) == now + ttl_secs,
{
}

fn expiry_exec(now: u64, ttl_secs: u64) -> (r: u64)
    ensures
        r == expiry(now, ttl_secs),
{
    let ttl = if ttl_secs >= 1 { ttl_secs } else { 1 };
    now.saturating_add(ttl)
}

/// The hot state of a conversation.
#[derive(Debug, Clone, Copy, PartialEq, Eq, Structural)]
pub struct ConversationSession {
    pub conversation_id: ConversationId,
    pub created_at_epoch_seconds: u64,
    pub last_active_epoch_seconds: u64,
    pub expires_at_epoch_seconds: u64,
    pub message_count: usize,
}

impl ConversationSession {
    /// A session of `conversation_id` started at `now`, with no messages.
    pub fn started_at(conversation_id: ConversationId, ttl_secs: u64, now: u64) -> (r: Self)
        ensures
            r.conversation_id == conversation_id,
            r.created_at_epoch_seconds == now,
            r.last_active_epoch_seconds == now,
            r.expires_at_epoch_seconds == expiry(now, ttl_secs),
            r.message_count == 0,
    {
        ConversationSession {
            conversation_id,
            created_at_epoch_seconds: now,
            last_active_epoch_seconds: now,
            expires_at_epoch_seconds: expiry_exec(now, ttl_secs),
            message_count: 0,
        }
    }

    /// A session of `conversation_id` started now, with no messages.
    pub fn new(conversation_id: ConversationId, ttl_secs: u64) -> (r: Self)
        ensures
            r.conversation_id == conversation_id,
            r.created_at_epoch_seconds == r.last_active_epoch_seconds,
            r.expires_at_epoch_seconds == expiry(r.last_active_epoch_seconds, ttl_secs),
            r.message_count == 0,
    {
        let now = now_epoch_seconds();
        Self::started_at(conversation_id, ttl_secs, now)
    }

    /// Marks the session active at `now` with `message_count` messages.
    pub fn touched_at(&mut self, ttl_secs: u64, message_count: usize, now: u64)
        ensures
            final(self).conversation_id == old(self).conversation_id,
            final(self).created_at_epoch_seconds == old(self).created_at_epoch_seconds,
            final(self).last_active_epoch_seconds == now,
            final(self).expires_at_epoch_seconds == expiry(now, ttl_secs),
            final(self).message_count == message_count,
    {
        self.last_active_epoch_seconds = now;
        self.expires_at_epoch_seconds = expiry_exec(now, ttl_secs);
        self.message_count = message_count;
    }

    /// Marks the session active now with `message_count` messages.
    pub fn touch(&mut self, ttl_secs: u64, message_count: usize)
        ensures
            final(self).conversation_id == old(self).conversation_id,
            final(self).created_at_epoch_seconds == old(self).created_at_epoch_seconds,
            final(self).expires_at_epoch_seconds == expiry(
                final(self).last_active_epoch_seconds,
                ttl_secs,
            ),
            final(self).message_count == message_count,
    {
        let now = now_epoch_seconds();
        self.touched_at(ttl_secs, message_count, now);
    }

    /// The stored session when there is one, else a session of
    /// `conversation_id` started now.
    pub fn resume_or_start(existing: Option<Self>, conversation_id: ConversationId, ttl_secs: u64) -> (r: Self)
        ensures
            existing is Some ==> r == existing->0,
            existing is None ==> r.conversation_id == conversation_id && r.message_count == 0
                && r.created_at_epoch_seconds == r.last_active_epoch_seconds
                && r.expires_at_epoch_seconds == expiry(r.last_active_epoch_seconds, ttl_secs),
    {
        match existing {
            Some(session) => session,
            None => Self::new(conversation_id, ttl_secs),
        }
    }
}

} // verus!
