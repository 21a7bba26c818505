//! JSON values as the library holds them: payloads and message metadata.
use vstd::prelude::*;

use crate::text::{ascii_lower_of, chars_of};
use crate::table::{distinct_keys, lemma_table_lookup, lemma_table_push, lemma_table_update, table_of};

verus! {

broadcast use vstd::std_specs::vec::group_vec_axioms;

#[derive(Debug)]
pub struct JsonNumber {
    pub text: String,
    pub integer: Option<i128>,
    pub order_key: u64,
}

#[derive(Debug)]
pub enum JsonValue {
    Null,
    Bool(bool),
    Number(JsonNumber),
    String(String),
    Array(Vec<JsonValue>),
    Object(Vec<(String, JsonValue)>),
}

pub enum JsonView {
    Null,
    Bool(bool),
    Number(Seq<char>, Option<i128>, u64),
    Str(Seq<char>),
    Array(Seq<JsonView>),
    Object(Seq<(Seq<char>, JsonView)>),
}

pub open spec fn json_view(v: JsonValue) -> JsonView
    decreases v, 1int,
{
    match v {
        JsonValue::Null => JsonView::Null,
        JsonValue::Bool(b) => JsonView::Bool(b),
        JsonValue::Number(n) => JsonView::Number(n.text@, n.integer, n.order_key),
        JsonValue::String(s) => JsonView::Str(s@),
        JsonValue::Array(items) => JsonView::Array(json_views(items@)),
        JsonValue::Object(entries) => JsonView::Object(entry_views(entries@)),
    }
}

pub open spec fn json_views(s: Seq<JsonValue>) -> Seq<JsonView>
    decreases s, 0int,
{
    if s.len() == 0 {
        Seq::empty()
    } else {
        json_views(s.drop_last()).push(json_view(s.last()))
    }
}

pub open spec fn entry_views(s: Seq<(String, JsonValue)>) -> Seq<(Seq<char>, JsonView)>
    decreases s, 0int,
{
    if s.len() == 0 {
        Seq::empty()
    } else {
        entry_views(s.drop_last()).push((s.last().0@, json_view(s.last().1)))
    }
}

impl View for JsonValue {
    type V = JsonView;

    open spec fn view(&self) -> JsonView {
        json_view(*self)
    }
}

impl JsonNumber {
    pub fn copy(&self) -> (r: Self)
        ensures
            r.text@ == self.text@,
            r.integer == self.integer,
            r.order_key == self.order_key,
    {
        JsonNumber { text: self.text.clone(), integer: self.integer, order_key: self.order_key }
    }
}

impl JsonValue {
    /// A copy of this value.
    pub fn copy(&self) -> (r: Self)
        ensures
            r@ == self@,
        decreases self,
    {
        match self {
            JsonValue::Null => JsonValue::Null,
            JsonValue::Bool(b) => JsonValue::Bool(*b),
            JsonValue::Number(n) => JsonValue::Number(n.copy()),
            JsonValue::String(s) => JsonValue::String(s.clone()),
            JsonValue::Array(items) => {
                let mut r: Vec<JsonValue> = Vec::new();
                let mut i: usize = 0;
                while i < items.len()
                    invariant
                        i <= items.len(),
                        *self == JsonValue::Array(*items),
                        json_views(r@) == json_views(items@.take(i as int)),
                    decreases items.len() - i,
                {
                    proof {
                        assert(decreases_to!(*self => (*self)->Array_0));
                        assert(decreases_to!(*items => items[i as int]));
                        assert(decreases_to!(*self => items[i as int]));
                    }
                    let v = items[i].copy();
                    let ghost before = r@;
                    r.push(v);
                    proof {
                        assert(r@.drop_last() =~= before);
                        assert(items@.take(i + 1).drop_last() =~= items@.take(i as int));
                    }
                    i = i + 1;
                }
                proof {
                    assert(items@.take(items.len() as int) =~= items@);
                }
                JsonValue::Array(r)
            },
            JsonValue::Object(entries) => {
                let mut r: Vec<(String, JsonValue)> = Vec::new();
                let mut i: usize = 0;
                while i < entries.len()
                    invariant
                        i <= entries.len(),
                        *self == JsonValue::Object(*entries),
                        entry_views(r@) == entry_views(entries@.take(i as int)),
                    decreases entries.len() - i,
                {
                    proof {
                        assert(decreases_to!(*self => (*self)->Object_0));
                        assert(decreases_to!(*entries => entries[i as int]));
                        assert(decreases_to!(entries[i as int] => entries[i as int].1));
                        assert(decreases_to!(*self => entries[i as int].1));
                    }
                    let v = entries[i].1.copy();
                    let ghost before = r@;
                    r.push((entries[i].0.clone(), v));
                    proof {
                        assert(r@.drop_last() =~= before);
                        assert(entries@.take(i + 1).drop_last() =~= entries@.take(i as int));
                    }
                    i = i + 1;
                }
                proof {
                    assert(entries@.take(entries.len() as int) =~= entries@);
                }
                JsonValue::Object(r)
            },
        }
    }
}

/// String-keyed JSON metadata; each key occurs once.
#[derive(Debug)]
pub struct Metadata {
    entries: Vec<(String, JsonValue)>,
}

impl View for Metadata {
    type V = Map<Seq<char>, JsonView>;

    closed spec fn view(&self) -> Map<Seq<char>, JsonView> {
        table_of(entry_views(self.entries@))
    }
}

proof fn lemma_entry_views_index(s: Seq<(String, JsonValue)>, i: int)
    requires
        0 <= i < s.len(),
    ensures
        entry_views(s).len() == s.len(),
        entry_views(s)[i] == (s[i].0@, json_view(s[i].1)),
    decreases s.len(),
{
    if i < s.len() - 1 {
        lemma_entry_views_index(s.drop_last(), i);
    }
    lemma_entry_views_len(s);
}

proof fn lemma_entry_views_len(s: Seq<(String, JsonValue)>)
    ensures
        entry_views(s).len() == s.len(),
    decreases s.len(),
{
    if s.len() > 0 {
        lemma_entry_views_len(s.drop_last());
    }
}

impl Metadata {
    #[verifier::type_invariant]
    closed spec fn keys_distinct(self) -> bool {
        distinct_keys(entry_views(self.entries@))
    }

    /// Empty metadata.
    pub fn new() -> (r: Self)
        ensures
            r@ == Map::<Seq<char>, JsonView>::empty(),
    {
        let entries: Vec<(String, JsonValue)> = Vec::new();
        proof {
            assert(entry_views(entries@) =~= Seq::<(Seq<char>, JsonView)>::empty());
        }
        Metadata { entries }
    }

    /// Number of keys.
    pub fn len(&self) -> (r: usize)
        ensures
            r == self@.len(),
    {
        proof {
            use_type_invariant(self);
            lemma_entry_views_len(self.entries@);
            crate::table::lemma_table_len(entry_views(self.entries@));
        }
        self.entries.len()
    }

    fn find(&self, key: &str) -> (r: Option<usize>)
        ensures
            match r {
                Some(i) => i < self.entries.len() && self.entries@[i as int].0@ == key@,
                None => forall|j: int|
                    0 <= j < self.entries.len() ==> self.entries@[j].0@ != key@,
            },
    {
        let k = crate::text::chars_of(key);
        let mut i: usize = 0;
        while i < self.entries.len()
            invariant
                i <= self.entries.len(),
                k@ == key@,
                forall|j: int| 0 <= j < i ==> self.entries@[j].0@ != key@,
            decreases self.entries.len() - i,
        {
            let ek = crate::text::chars_of(self.entries[i].0.as_str());
            if crate::text::chars_eq(&ek, &k) {
                return Some(i);
            }
            i = i + 1;
        }
        None
    }

    /// The value of `key`, if it has one.
    pub fn get(&self, key: &str) -> (r: Option<&JsonValue>)
        ensures
            match r {
                Some(v) => self@.contains_key(key@) && self@[key@] == v@,
                None => !self@.contains_key(key@),
            },
    {
        proof {
            use_type_invariant(self);
            lemma_table_lookup(entry_views(self.entries@), key@);
            lemma_entry_views_len(self.entries@);
        }
        match self.find(key) {
            Some(i) => {
                proof {
                    lemma_entry_views_index(self.entries@, i as int);
                }
                Some(&self.entries[i].1)
            },
            None => {
                proof {
                    assert forall|j: int| 0 <= j < entry_views(self.entries@).len() implies entry_views(
                        self.entries@,
                    )[j].0 != key@ by {
                        lemma_entry_views_index(self.entries@, j);
                    }
                }
                None
            },
        }
    }

    /// Sets `key` to `value`; returns the value it replaced, if any.
    pub fn insert(&mut self, key: String, value: JsonValue) -> (r: Option<JsonValue>)
        ensures
            final(self)@ == old(self)@.insert(key@, value@),
            match r {
                Some(v) => old(self)@.contains_key(key@) && old(self)@[key@] == v@,
                None => !old(self)@.contains_key(key@),
            },
    {
        proof {
            use_type_invariant(&*self);
            lemma_entry_views_len(self.entries@);
        }
        let ghost es = entry_views(self.entries@);
        let ghost kv = key@;
        let ghost vv = value@;
        proof {
            lemma_table_lookup(es, kv);
        }
        match self.find(key.as_str()) {
            Some(i) => {
                let mut entries: Vec<(String, JsonValue)> = Vec::new();
                proof {
                    assert(entry_views(entries@) =~= Seq::<(Seq<char>, JsonView)>::empty());
                }
                std::mem::swap(&mut entries, &mut self.entries);
                let ghost before = entries@;
                let (old_key, old_v) = entries.remove(i);
                entries.insert(i, (old_key, value));
                proof {
                    lemma_entry_views_index(before, i as int);
                    assert(entries@ =~= before.update(i as int, (before[i as int].0, value)));
                    lemma_entry_views_update(before, i as int, value);
                    lemma_table_update(es, i as int, vv);
                }
                self.entries = entries;
                Some(old_v)
            },
            None => {
                let mut entries: Vec<(String, JsonValue)> = Vec::new();
                proof {
                    assert(entry_views(entries@) =~= Seq::<(Seq<char>, JsonView)>::empty());
                }
                std::mem::swap(&mut entries, &mut self.entries);
                let ghost before = entries@;
                entries.push((key, value));
                proof {
                    assert(entries@.drop_last() =~= before);
                    assert forall|j: int| 0 <= j < es.len() implies es[j].0 != kv by {
                        lemma_entry_views_index(before, j);
                    }
                    lemma_table_push(es, kv, vv);
                }
                self.entries = entries;
                None
            },
        }
    }

    /// A copy of this metadata.
    pub fn copy(&self) -> (r: Self)
        ensures
            r@ == self@,
    {
        proof {
            use_type_invariant(self);
        }
        let mut entries: Vec<(String, JsonValue)> = Vec::new();
        let mut i: usize = 0;
        while i < self.entries.len()
            invariant
                i <= self.entries.len(),
                entry_views(entries@) == entry_views(self.entries@.take(i as int)),
            decreases self.entries.len() - i,
        {
            let v = self.entries[i].1.copy();
            let ghost before = entries@;
            entries.push((self.entries[i].0.clone(), v));
            proof {
                assert(entries@.drop_last() =~= before);
                assert(self.entries@.take(i + 1).drop_last() =~= self.entries@.take(i as int));
            }
            i = i + 1;
        }
        proof {
            assert(self.entries@.take(self.entries.len() as int) =~= self.entries@);
        }
        Metadata { entries }
    }
}

proof fn lemma_entry_views_update(s: Seq<(String, JsonValue)>, i: int, v: JsonValue)
    requires
        0 <= i < s.len(),
    ensures
        entry_views(s.update(i, (s[i].0, v))) == entry_views(s).update(i, (s[i].0@, json_view(v))),
    decreases s.len(),
{
    let s2 = s.update(i, (s[i].0, v));
    lemma_entry_views_len(s);
    lemma_entry_views_len(s2);
    assert forall|j: int| 0 <= j < s.len() implies entry_views(s2)[j] == entry_views(s).update(
        i,
        (s[i].0@, json_view(v)),
    )[j] by {
        lemma_entry_views_index(s2, j);
        lemma_entry_views_index(s, j);
    }
    assert(entry_views(s2) =~= entry_views(s).update(i, (s[i].0@, json_view(v))));
}

// ---------------------------------------------------------------------------
// Matching
// ---------------------------------------------------------------------------

/// Equal up to ASCII case (`str::eq_ignore_ascii_case`).
pub open spec fn eq_ignore_case(a: Seq<char>, b: Seq<char>) -> bool {
    a.len() == b.len() && forall|i: int| 0 <= i < a.len() ==> ascii_lower_of(a[i]) == ascii_lower_of(b[i])
}

/// Whether two texts are equal up to ASCII case.
pub fn eq_ignore_ascii_case(a: &Vec<char>, b: &Vec<char>) -> (r: bool)
    ensures
        r == eq_ignore_case(a@, b@),
{
    if a.len() != b.len() {
        return false;
    }
    let mut i: usize = 0;
    while i < a.len()
        invariant
            a.len() == b.len(),
            i <= a.len(),
            forall|j: int| 0 <= j < i ==> ascii_lower_of(a@[j]) == ascii_lower_of(b@[j]),
        decreases a.len() - i,
    {
        if crate::text::ascii_lower_char(a[i]) != crate::text::ascii_lower_char(b[i]) {
            return false;
        }
        i = i + 1;
    }
    true
}

/// The text of a boolean.
pub open spec fn bool_text(b: bool) -> Seq<char> {
    if b {
        "true"@
    } else {
        "false"@
    }
}

fn bool_text_exec(b: bool) -> (r: Vec<char>)
    ensures
        r@ == bool_text(b),
{
    if b {
        chars_of("true")
    } else {
        chars_of("false")
    }
}

/// A scalar matches a text: a string equal up to ASCII case, or a number or
/// boolean whose text is the text; an array matches when one of its items
/// does.
pub open spec fn value_matches(v: JsonView, expected: Seq<char>) -> bool
    decreases v, 1int,
{
    match v {
        JsonView::Str(a) => eq_ignore_case(a, expected),
        JsonView::Number(t, _, _) => t == expected,
        JsonView::Bool(b) => bool_text(b) == expected,
        JsonView::Array(items) => any_matches(items, expected),
        _ => false,
    }
}

/// One of the items matches the text.
pub open spec fn any_matches(items: Seq<JsonView>, expected: Seq<char>) -> bool
    decreases items, 0int,
{
    if items.len() == 0 {
        false
    } else {
        any_matches(items.drop_last(), expected) || value_matches(items.last(), expected)
    }
}

/// Like `value_matches`, and an object contains the text when one of its
/// values does.
pub open spec fn value_contains(v: JsonView, expected: Seq<char>) -> bool
    decreases v, 1int,
{
    match v {
        JsonView::Str(a) => eq_ignore_case(a, expected),
        JsonView::Number(t, _, _) => t == expected,
        JsonView::Bool(b) => bool_text(b) == expected,
        JsonView::Array(items) => any_contains(items, expected),
        JsonView::Object(entries) => any_entry_contains(entries, expected),
        JsonView::Null => false,
    }
}

/// One of the items contains the text.
pub open spec fn any_contains(items: Seq<JsonView>, expected: Seq<char>) -> bool
    decreases items, 0int,
{
    if items.len() == 0 {
        false
    } else {
        any_contains(items.drop_last(), expected) || value_contains(items.last(), expected)
    }
}

/// One of the entries' values contains the text.
pub open spec fn any_entry_contains(entries: Seq<(Seq<char>, JsonView)>, expected: Seq<char>) -> bool
    decreases entries, 0int,
{
    if entries.len() == 0 {
        false
    } else {
        any_entry_contains(entries.drop_last(), expected) || value_contains(
            entries.last().1,
            expected,
        )
    }
}

/// Two numbers are equal: both integers of the same value, or both
/// non-integers with the same `f64` value.
pub open spec fn numbers_equal(
    a_int: Option<i128>,
    a_key: u64,
    b_int: Option<i128>,
    b_key: u64,
) -> bool {
    match (a_int, b_int) {
        (Some(x), Some(y)) => x == y,
        (None, None) => a_key == b_key,
        _ => false,
    }
}

/// Structural equality of JSON values (as `serde_json::Value` compares
/// them): objects are equal when they have the same keys with equal values.
pub open spec fn json_equal(a: JsonView, b: JsonView) -> bool
    decreases a, 2int, 0int,
{
    match (a, b) {
        (JsonView::Null, JsonView::Null) => true,
        (JsonView::Bool(x), JsonView::Bool(y)) => x == y,
        (JsonView::Number(_, ai, ak), JsonView::Number(_, bi, bk)) => numbers_equal(ai, ak, bi, bk),
        (JsonView::Str(x), JsonView::Str(y)) => x == y,
        (JsonView::Array(xs), JsonView::Array(ys)) => xs.len() == ys.len() && arrays_equal(xs, ys),
        (JsonView::Object(xs), JsonView::Object(ys)) => xs.len() == ys.len() && entries_in(xs, ys),
        _ => false,
    }
}

/// Equal lengths assumed, the items are pairwise equal.
pub open spec fn arrays_equal(xs: Seq<JsonView>, ys: Seq<JsonView>) -> bool
    decreases xs, 1int, 0int,
{
    if xs.len() == 0 || ys.len() == 0 {
        xs.len() == ys.len()
    } else {
        arrays_equal(xs.drop_last(), ys.drop_last()) && json_equal(xs.last(), ys.last())
    }
}

/// Every entry of `xs` has an entry of the same key and an equal value in
/// `ys`.
pub open spec fn entries_in(xs: Seq<(Seq<char>, JsonView)>, ys: Seq<(Seq<char>, JsonView)>) -> bool
    decreases xs, 1int, 0int,
{
    if xs.len() == 0 {
        true
    } else {
        entries_in(xs.drop_last(), ys) && has_entry(ys, xs.last().0, xs.last().1)
    }
}

/// `ys` has an entry of key `k` whose value equals `v`.
pub open spec fn has_entry(ys: Seq<(Seq<char>, JsonView)>, k: Seq<char>, v: JsonView) -> bool
    decreases v, 3int, ys.len(),
{
    if ys.len() == 0 {
        false
    } else {
        has_entry(ys.drop_last(), k, v) || (ys.last().0 == k && json_equal(v, ys.last().1))
    }
}

/// Equality used by filters: strings compare up to ASCII case, other values
/// structurally.
pub open spec fn filter_equal(a: JsonView, b: JsonView) -> bool {
    match (a, b) {
        (JsonView::Str(x), JsonView::Str(y)) => eq_ignore_case(x, y),
        _ => json_equal(a, b),
    }
}

proof fn lemma_json_views_len(s: Seq<JsonValue>)
    ensures
        json_views(s).len() == s.len(),
    decreases s.len(),
{
    if s.len() > 0 {
        lemma_json_views_len(s.drop_last());
    }
}

proof fn lemma_json_views_take(s: Seq<JsonValue>, i: int)
    requires
        0 <= i < s.len(),
    ensures
        json_views(s.take(i + 1)) == json_views(s.take(i)).push(json_view(s[i])),
{
    assert(s.take(i + 1).drop_last() =~= s.take(i));
}

proof fn lemma_entry_views_take(s: Seq<(String, JsonValue)>, i: int)
    requires
        0 <= i < s.len(),
    ensures
        entry_views(s.take(i + 1)) == entry_views(s.take(i)).push((s[i].0@, json_view(s[i].1))),
{
    assert(s.take(i + 1).drop_last() =~= s.take(i));
}

impl JsonValue {
    /// Whether this value matches the text (see `value_matches`).
    pub fn matches_text(&self, expected: &Vec<char>) -> (r: bool)
        ensures
            r == value_matches(self@, expected@),
        decreases self,
    {
        match self {
            JsonValue::String(a) => eq_ignore_ascii_case(&chars_of(a.as_str()), expected),
            JsonValue::Number(n) => crate::text::chars_eq(&chars_of(n.text.as_str()), expected),
            JsonValue::Bool(b) => crate::text::chars_eq(&bool_text_exec(*b), expected),
            JsonValue::Array(items) => {
                let mut i: usize = 0;
                let mut found = false;
                proof {
                    assert(items@.take(0) =~= Seq::<JsonValue>::empty());
                }
                while i < items.len()
                    invariant
                        i <= items.len(),
                        *self == JsonValue::Array(*items),
                        found == any_matches(json_views(items@.take(i as int)), expected@),
                    decreases items.len() - i,
                {
                    proof {
                        assert(decreases_to!(*self => (*self)->Array_0));
                        assert(decreases_to!(*items => items[i as int]));
                        lemma_json_views_take(items@, i as int);
                        assert(json_views(items@.take(i as int)).push(json_view(items@[i as int])).drop_last()
                            =~= json_views(items@.take(i as int)));
                    }
                    let m = items[i].matches_text(expected);
                    found = found || m;
                    i = i + 1;
                }
                proof {
                    assert(items@.take(items.len() as int) =~= items@);
                }
                found
            },
            _ => false,
        }
    }

    /// Whether this value contains the text (see `value_contains`).
    pub fn contains_text(&self, expected: &Vec<char>) -> (r: bool)
        ensures
            r == value_contains(self@, expected@),
        decreases self,
    {
        match self {
            JsonValue::String(a) => eq_ignore_ascii_case(&chars_of(a.as_str()), expected),
            JsonValue::Number(n) => crate::text::chars_eq(&chars_of(n.text.as_str()), expected),
            JsonValue::Bool(b) => crate::text::chars_eq(&bool_text_exec(*b), expected),
            JsonValue::Array(items) => {
                let mut i: usize = 0;
                let mut found = false;
                proof {
                    assert(items@.take(0) =~= Seq::<JsonValue>::empty());
                }
                while i < items.len()
                    invariant
                        i <= items.len(),
                        *self == JsonValue::Array(*items),
                        found == any_contains(json_views(items@.take(i as int)), expected@),
                    decreases items.len() - i,
                {
                    proof {
                        assert(decreases_to!(*self => (*self)->Array_0));
                        assert(decreases_to!(*items => items[i as int]));
                        lemma_json_views_take(items@, i as int);
                        assert(json_views(items@.take(i as int)).push(json_view(items@[i as int])).drop_last()
                            =~= json_views(items@.take(i as int)));
                    }
                    let m = items[i].contains_text(expected);
                    found = found || m;
                    i = i + 1;
                }
                proof {
                    assert(items@.take(items.len() as int) =~= items@);
                }
                found
            },
            JsonValue::Object(entries) => {
                let mut i: usize = 0;
                let mut found = false;
                proof {
                    assert(entries@.take(0) =~= Seq::<(String, JsonValue)>::empty());
                }
                while i < entries.len()
                    invariant
                        i <= entries.len(),
                        *self == JsonValue::Object(*entries),
                        found == any_entry_contains(entry_views(entries@.take(i as int)), expected@),
                    decreases entries.len() - i,
                {
                    proof {
                        assert(decreases_to!(*self => (*self)->Object_0));
                        assert(decreases_to!(*entries => entries[i as int]));
                        assert(decreases_to!(entries[i as int] => entries[i as int].1));
                        lemma_entry_views_take(entries@, i as int);
                        let ev = entry_views(entries@.take(i as int));
                        assert(ev.push((entries@[i as int].0@, json_view(entries@[i as int].1))).drop_last()
                            =~= ev);
                    }
                    let m = entries[i].1.contains_text(expected);
                    found = found || m;
                    i = i + 1;
                }
                proof {
                    assert(entries@.take(entries.len() as int) =~= entries@);
                }
                found
            },
            JsonValue::Null => false,
        }
    }

    /// Whether two values are structurally equal (see `json_equal`).
    pub fn structurally_equal(&self, other: &JsonValue) -> (r: bool)
        ensures
            r == json_equal(self@, other@),
        decreases self,
    {
        match (self, other) {
            (JsonValue::Null, JsonValue::Null) => true,
            (JsonValue::Bool(x), JsonValue::Bool(y)) => *x == *y,
            (JsonValue::Number(x), JsonValue::Number(y)) => match (x.integer, y.integer) {
                (Some(a), Some(b)) => a == b,
                (None, None) => x.order_key == y.order_key,
                _ => false,
            },
            (JsonValue::String(x), JsonValue::String(y)) => *x == *y,
            (JsonValue::Array(xs), JsonValue::Array(ys)) => {
                proof {
                    lemma_json_views_len(xs@);
                    lemma_json_views_len(ys@);
                }
                if xs.len() != ys.len() {
                    return false;
                }
                let mut i: usize = 0;
                let mut same = true;
                proof {
                    assert(xs@.take(0) =~= Seq::<JsonValue>::empty());
                    assert(ys@.take(0) =~= Seq::<JsonValue>::empty());
                }
                while i < xs.len()
                    invariant
                        i <= xs.len(),
                        xs.len() == ys.len(),
                        *self == JsonValue::Array(*xs),
                        same == arrays_equal(json_views(xs@.take(i as int)), json_views(ys@.take(i as int))),
                        json_views(xs@.take(i as int)).len() == i,
                        json_views(ys@.take(i as int)).len() == i,
                    decreases xs.len() - i,
                {
                    proof {
                        assert(decreases_to!(*self => (*self)->Array_0));
                        assert(decreases_to!(*xs => xs[i as int]));
                        lemma_json_views_take(xs@, i as int);
                        lemma_json_views_take(ys@, i as int);
                        let a = json_views(xs@.take(i as int));
                        let b = json_views(ys@.take(i as int));
                        assert(a.push(json_view(xs@[i as int])).drop_last() =~= a);
                        assert(b.push(json_view(ys@[i as int])).drop_last() =~= b);
                    }
                    let e = xs[i].structurally_equal(&ys[i]);
                    same = same && e;
                    i = i + 1;
                }
                proof {
                    assert(xs@.take(xs.len() as int) =~= xs@);
                    assert(ys@.take(ys.len() as int) =~= ys@);
                }
                same
            },
            (JsonValue::Object(xs), JsonValue::Object(ys)) => {
                proof {
                    lemma_entry_views_len(xs@);
                    lemma_entry_views_len(ys@);
                }
                if xs.len() != ys.len() {
                    return false;
                }
                let mut i: usize = 0;
                let mut all = true;
                proof {
                    assert(xs@.take(0) =~= Seq::<(String, JsonValue)>::empty());
                }
                while i < xs.len()
                    invariant
                        i <= xs.len(),
                        *self == JsonValue::Object(*xs),
                        all == entries_in(entry_views(xs@.take(i as int)), entry_views(ys@)),
                    decreases xs.len() - i,
                {
                    proof {
                        assert(decreases_to!(*self => (*self)->Object_0));
                        assert(decreases_to!(*xs => xs[i as int]));
                        assert(decreases_to!(xs[i as int] => xs[i as int].1));
                        lemma_entry_views_take(xs@, i as int);
                        let ev = entry_views(xs@.take(i as int));
                        assert(ev.push((xs@[i as int].0@, json_view(xs@[i as int].1))).drop_last() =~= ev);
                    }
                    let mut j: usize = 0;
                    let mut hit = false;
                    proof {
                        assert(ys@.take(0) =~= Seq::<(String, JsonValue)>::empty());
                    }
                    while j < ys.len()
                        invariant
                            j <= ys.len(),
                            i < xs.len(),
                            *self == JsonValue::Object(*xs),
                            decreases_to!(*self => xs[i as int].1),
                            hit == has_entry(entry_views(ys@.take(j as int)), xs@[i as int].0@, json_view(xs@[i as int].1)),
                        decreases ys.len() - j,
                    {
                        proof {
                            lemma_entry_views_take(ys@, j as int);
                            let ev = entry_views(ys@.take(j as int));
                            assert(ev.push((ys@[j as int].0@, json_view(ys@[j as int].1))).drop_last() =~= ev);
                        }
                        if xs[i].0 == ys[j].0 {
                            let e = xs[i].1.structurally_equal(&ys[j].1);
                            hit = hit || e;
                        }
                        j = j + 1;
                    }
                    proof {
                        assert(ys@.take(ys.len() as int) =~= ys@);
                    }
                    all = all && hit;
                    i = i + 1;
                }
                proof {
                    assert(xs@.take(xs.len() as int) =~= xs@);
                }
                all
            },
            _ => false,
        }
    }

    /// Equality used by filters (see `filter_equal`).
    pub fn filter_equals(&self, other: &JsonValue) -> (r: bool)
        ensures
            r == filter_equal(self@, other@),
    {
        match (self, other) {
            (JsonValue::String(x), JsonValue::String(y)) => eq_ignore_ascii_case(
                &chars_of(x.as_str()),
                &chars_of(y.as_str()),
            ),
            _ => self.structurally_equal(other),
        }
    }
}

proof fn lemma_has_entry_at(ys: Seq<(Seq<char>, JsonView)>, j: int)
    requires
        0 <= j < ys.len(),
        json_equal(ys[j].1, ys[j].1),
    ensures
        has_entry(ys, ys[j].0, ys[j].1),
    decreases ys.len(),
{
    if j < ys.len() - 1 {
        assert(ys.drop_last()[j] == ys[j]);
        lemma_has_entry_at(ys.drop_last(), j);
    }
}

proof fn lemma_json_equal_refl(v: JsonView)
    ensures
        json_equal(v, v),
    decreases v, 0int, 0int,
{
    match v {
        JsonView::Array(xs) => {
            lemma_arrays_equal_refl(xs);
        },
        JsonView::Object(xs) => {
            lemma_entries_in_refl(xs, xs.len() as int);
            assert(xs.take(xs.len() as int) =~= xs);
        },
        _ => {},
    }
}

proof fn lemma_arrays_equal_refl(xs: Seq<JsonView>)
    ensures
        arrays_equal(xs, xs),
    decreases xs, 1int, 0int,
{
    if xs.len() > 0 {
        lemma_arrays_equal_refl(xs.drop_last());
        lemma_json_equal_refl(xs.last());
    }
}

proof fn lemma_entries_in_refl(xs: Seq<(Seq<char>, JsonView)>, n: int)
    requires
        0 <= n <= xs.len(),
    ensures
        entries_in(xs.take(n), xs),
    decreases xs, 1int, n,
{
    if n > 0 {
        lemma_entries_in_refl(xs, n - 1);
        assert(xs.take(n).drop_last() =~= xs.take(n - 1));
        assert(decreases_to!(xs => xs[n - 1]));
        assert(decreases_to!(xs[n - 1] => xs[n - 1].1));
        lemma_json_equal_refl(xs[n - 1].1);
        lemma_has_entry_at(xs, n - 1);
    }
}

/// Every JSON value equals itself, structurally and as filters compare.
pub proof fn law_json_equality_reflexive(v: JsonView)
    ensures
        json_equal(v, v),
        filter_equal(v, v),
{
    lemma_json_equal_refl(v);
}

/// What a read gives back of a write: after `key` is set to `value`, it
/// reads as `value`, and every other key reads as before.
pub proof fn law_metadata_read_after_write(
    before: Map<Seq<char>, JsonView>,
    key: Seq<char>,
    value: JsonView,
    other: Seq<char>,
)
    ensures
        before.insert(key, value).contains_key(key),
        before.insert(key, value)[key] == value,
        other != key ==> before.insert(key, value).contains_key(other) == before.contains_key(other),
        other != key ==> before.insert(key, value)[other] == before[other],
{
}

} // verus!
