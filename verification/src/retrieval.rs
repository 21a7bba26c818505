//! Retrieval: metadata filters, retrieval requests and their validation,
//! and the keyword statistics that keyword scoring works from.
use vstd::prelude::*;

use crate::error::ContextraError;
use crate::json::{
    filter_equal, value_contains, value_matches, JsonValue, JsonView, Metadata,
};
use crate::json::{bool_text, entry_views, json_view, json_views};
use crate::query::{contains_string, normalize, normalize_query_text, strings, tokenize, tokens_of, copy_strings};
use crate::text::join;
use crate::text::{chars_of, trim, trim_chars};

verus! {

// ---------------------------------------------------------------------------
// Metadata filters
// ---------------------------------------------------------------------------

/// How a metadata condition compares a field with its value.
#[derive(Debug, Clone, Copy, PartialEq, Eq, Structural)]
pub enum FilterOperator {
    Equals,
    NotEquals,
    Contains,
    GreaterThan,
    GreaterThanOrEqual,
    LessThan,
    LessThanOrEqual,
}

/// A condition on one metadata field.
#[derive(Debug)]
pub struct MetadataCondition {
    pub field: String,
    pub operator: FilterOperator,
    pub value: JsonValue,
}

/// Both values are numbers; their `f64` order keys.
pub open spec fn number_keys(a: JsonView, b: JsonView) -> Option<(u64, u64)> {
    match (a, b) {
        (JsonView::Number(_, _, x), JsonView::Number(_, _, y)) => Some((x, y)),
        _ => None,
    }
}

/// Whether a field value satisfies an operator against a condition value:
/// (in)equality up to ASCII case for strings, containment of a string
/// condition value, and numeric order when both are numbers.
pub open spec fn condition_holds(op: FilterOperator, actual: JsonView, value: JsonView) -> bool {
    match op {
        FilterOperator::Equals => filter_equal(actual, value),
        FilterOperator::NotEquals => !filter_equal(actual, value),
        FilterOperator::Contains => match value {
            JsonView::Str(s) => value_contains(actual, s),
            _ => false,
        },
        FilterOperator::GreaterThan => match number_keys(actual, value) {
            Some((a, b)) => a > b,
            None => false,
        },
        FilterOperator::GreaterThanOrEqual => match number_keys(actual, value) {
            Some((a, b)) => a >= b,
            None => false,
        },
        FilterOperator::LessThan => match number_keys(actual, value) {
            Some((a, b)) => a < b,
            None => false,
        },
        FilterOperator::LessThanOrEqual => match number_keys(actual, value) {
            Some((a, b)) => a <= b,
            None => false,
        },
    }
}

/// A condition holds of a payload when the payload has the field and its
/// value satisfies the condition.
pub open spec fn condition_matches(
    field: Seq<char>,
    op: FilterOperator,
    value: JsonView,
    payload: Map<Seq<char>, JsonView>,
) -> bool {
    payload.contains_key(field) && condition_holds(op, payload[field], value)
}

fn number_order_keys(a: &JsonValue, b: &JsonValue) -> (r: Option<(u64, u64)>)
    ensures
        r == number_keys(a@, b@),
{
    match (a, b) {
        (JsonValue::Number(x), JsonValue::Number(y)) => Some((x.order_key, y.order_key)),
        _ => None,
    }
}

impl MetadataCondition {
    /// The condition that `field` equals `value`.
    pub fn equals(field: &str, value: JsonValue) -> (r: Self)
        ensures
            r.field@ == field@,
            r.operator == FilterOperator::Equals,
            r.value == value,
    {
        MetadataCondition { field: field.to_owned(), operator: FilterOperator::Equals, value }
    }

    /// The condition that `field` contains `value`.
    pub fn contains(field: &str, value: JsonValue) -> (r: Self)
        ensures
            r.field@ == field@,
            r.operator == FilterOperator::Contains,
            r.value == value,
    {
        MetadataCondition { field: field.to_owned(), operator: FilterOperator::Contains, value }
    }

    /// Whether the payload satisfies this condition.
    pub fn matches(&self, payload: &Metadata) -> (r: bool)
        ensures
            r == condition_matches(self.field@, self.operator, self.value@, payload@),
    {
        let actual = match payload.get(self.field.as_str()) {
            Some(v) => v,
            None => {
                return false;
            },
        };
        match self.operator {
            FilterOperator::Equals => actual.filter_equals(&self.value),
            FilterOperator::NotEquals => !actual.filter_equals(&self.value),
            FilterOperator::Contains => match &self.value {
                JsonValue::String(s) => actual.contains_text(&chars_of(s.as_str())),
                _ => false,
            },
            FilterOperator::GreaterThan => match number_order_keys(actual, &self.value) {
                Some((a, b)) => a > b,
                None => false,
            },
            FilterOperator::GreaterThanOrEqual => match number_order_keys(actual, &self.value) {
                Some((a, b)) => a >= b,
                None => false,
            },
            FilterOperator::LessThan => match number_order_keys(actual, &self.value) {
                Some((a, b)) => a < b,
                None => false,
            },
            FilterOperator::LessThanOrEqual => match number_order_keys(actual, &self.value) {
                Some((a, b)) => a <= b,
                None => false,
            },
        }
    }
}

/// Restrictions on the payload of retrieved documents.
#[derive(Debug)]
pub struct RetrievalFilter {
    pub collection: Option<String>,
    pub user_id: Option<String>,
    pub organization_id: Option<String>,
    pub language: Option<String>,
    pub file_type: Option<String>,
    pub tags: Vec<String>,
    pub permissions: Vec<String>,
    pub metadata: Vec<MetadataCondition>,
}

/// A scalar restriction: none, or the payload value of `key` matches the
/// expected text.
pub open spec fn scalar_ok(payload: Map<Seq<char>, JsonView>, key: Seq<char>, expected: Option<String>) -> bool {
    match expected {
        Some(e) => payload.contains_key(key) && value_matches(payload[key], e@),
        None => true,
    }
}

/// The payload value of `key` contains the text.
pub open spec fn payload_contains(payload: Map<Seq<char>, JsonView>, key: Seq<char>, e: Seq<char>) -> bool {
    payload.contains_key(key) && value_contains(payload[key], e)
}

/// The payload value of `key` contains every expected text.
pub open spec fn all_values_ok(payload: Map<Seq<char>, JsonView>, key: Seq<char>, expected: Seq<Seq<char>>) -> bool {
    forall|i: int| 0 <= i < expected.len() ==> payload_contains(payload, key, #[trigger] expected[i])
}

/// No texts are expected, or the payload value of `key` contains one.
pub open spec fn any_value_ok(payload: Map<Seq<char>, JsonView>, key: Seq<char>, expected: Seq<Seq<char>>) -> bool {
    expected.len() == 0 || exists|i: int|
        0 <= i < expected.len() && payload_contains(payload, key, #[trigger] expected[i])
}

/// The payload satisfies every metadata condition.
pub open spec fn conditions_ok(payload: Map<Seq<char>, JsonView>, conds: Seq<MetadataCondition>) -> bool {
    forall|i: int|
        0 <= i < conds.len() ==> condition_matches(
            (#[trigger] conds[i]).field@,
            conds[i].operator,
            conds[i].value@,
            payload,
        )
}

/// A payload passes a filter when each of its restrictions holds: the
/// scalar fields match, the payload has every tag, it has one of the
/// permissions (if any are asked), and it meets every metadata condition.
pub open spec fn filter_admits(f: RetrievalFilter, payload: Map<Seq<char>, JsonView>) -> bool {
    &&& scalar_ok(payload, "collection"@, f.collection)
    &&& scalar_ok(payload, "user_id"@, f.user_id)
    &&& scalar_ok(payload, "organization_id"@, f.organization_id)
    &&& scalar_ok(payload, "language"@, f.language)
    &&& scalar_ok(payload, "file_type"@, f.file_type)
    &&& all_values_ok(payload, "tags"@, strings(f.tags@))
    &&& any_value_ok(payload, "permissions"@, strings(f.permissions@))
    &&& conditions_ok(payload, f.metadata@)
}

fn matches_scalar(payload: &Metadata, key: &str, expected: &Option<String>) -> (r: bool)
    ensures
        r == scalar_ok(payload@, key@, *expected),
{
    match expected {
        Some(e) => match payload.get(key) {
            Some(v) => v.matches_text(&chars_of(e.as_str())),
            None => false,
        },
        None => true,
    }
}

fn value_contains_at(payload: &Metadata, key: &str, e: &String) -> (r: bool)
    ensures
        r == payload_contains(payload@, key@, e@),
{
    match payload.get(key) {
        Some(v) => v.contains_text(&chars_of(e.as_str())),
        None => false,
    }
}

fn matches_all_values(payload: &Metadata, key: &str, expected: &Vec<String>) -> (r: bool)
    ensures
        r == all_values_ok(payload@, key@, strings(expected@)),
{
    let mut i: usize = 0;
    while i < expected.len()
        invariant
            i <= expected.len(),
            forall|j: int| 0 <= j < i ==> payload_contains(payload@, key@, #[trigger] strings(expected@)[j]),
        decreases expected.len() - i,
    {
        if !value_contains_at(payload, key, &expected[i]) {
            assert(strings(expected@)[i as int] == expected@[i as int]@);
            return false;
        }
        i = i + 1;
    }
    true
}

fn matches_any_value(payload: &Metadata, key: &str, expected: &Vec<String>) -> (r: bool)
    ensures
        r == any_value_ok(payload@, key@, strings(expected@)),
{
    if expected.len() == 0 {
        return true;
    }
    let mut i: usize = 0;
    while i < expected.len()
        invariant
            i <= expected.len(),
            expected.len() > 0,
            forall|j: int| 0 <= j < i ==> !payload_contains(payload@, key@, #[trigger] strings(expected@)[j]),
        decreases expected.len() - i,
    {
        if value_contains_at(payload, key, &expected[i]) {
            assert(strings(expected@)[i as int] == expected@[i as int]@);
            return true;
        }
        i = i + 1;
    }
    false
}

impl RetrievalFilter {
    /// A filter with no restriction.
    pub fn new() -> (r: Self)
        ensures
            r.collection is None,
            r.user_id is None,
            r.organization_id is None,
            r.language is None,
            r.file_type is None,
            r.tags@.len() == 0,
            r.permissions@.len() == 0,
            r.metadata@.len() == 0,
    {
        RetrievalFilter {
            collection: None,
            user_id: None,
            organization_id: None,
            language: None,
            file_type: None,
            tags: Vec::new(),
            permissions: Vec::new(),
            metadata: Vec::new(),
        }
    }

    /// Whether a payload passes this filter (see `filter_admits`).
    pub fn matches(&self, payload: &Metadata) -> (r: bool)
        ensures
            r == filter_admits(*self, payload@),
    {
        if !matches_scalar(payload, "collection", &self.collection) {
            return false;
        }
        if !matches_scalar(payload, "user_id", &self.user_id) {
            return false;
        }
        if !matches_scalar(payload, "organization_id", &self.organization_id) {
            return false;
        }
        if !matches_scalar(payload, "language", &self.language) {
            return false;
        }
        if !matches_scalar(payload, "file_type", &self.file_type) {
            return false;
        }
        if !matches_all_values(payload, "tags", &self.tags) {
            return false;
        }
        if !matches_any_value(payload, "permissions", &self.permissions) {
            return false;
        }
        let mut i: usize = 0;
        while i < self.metadata.len()
            invariant
                i <= self.metadata.len(),
                forall|j: int|
                    0 <= j < i ==> condition_matches(
                        (#[trigger] self.metadata@[j]).field@,
                        self.metadata@[j].operator,
                        self.metadata@[j].value@,
                        payload@,
                    ),
            decreases self.metadata.len() - i,
        {
            if !self.metadata[i].matches(payload) {
                return false;
            }
            i = i + 1;
        }
        true
    }
}

impl Default for RetrievalFilter {
    fn default() -> (r: Self)
        ensures
            r.collection is None,
            r.user_id is None,
            r.organization_id is None,
            r.language is None,
            r.file_type is None,
            r.tags@.len() == 0,
            r.permissions@.len() == 0,
            r.metadata@.len() == 0,
    {
        RetrievalFilter::new()
    }
}

// ---------------------------------------------------------------------------
// Requests
// ---------------------------------------------------------------------------

/// How documents are scored.
#[derive(Debug, Clone, Copy, PartialEq, Eq, Structural)]
pub enum RetrievalMode {
    Semantic,
    Keyword,
    Hybrid,
}

impl Default for RetrievalMode {
    fn default() -> (r: Self)
        ensures
            r == RetrievalMode::Semantic,
    {
        RetrievalMode::Semantic
    }
}

/// The number of results a request asks for when it names none.
pub fn default_limit() -> (r: usize)
    ensures
        r == 10,
{
    10
}

/// A retrieval request.
#[derive(Debug)]
pub struct RetrievalRequest {
    pub query: String,
    pub collection: String,
    pub mode: RetrievalMode,
    pub limit: usize,
    pub filter: RetrievalFilter,
}

/// A request with no filter.
pub open spec fn plain_request(
    r: RetrievalRequest,
    query: Seq<char>,
    collection: Seq<char>,
    mode: RetrievalMode,
    limit: usize,
) -> bool {
    &&& r.query@ == query
    &&& r.collection@ == collection
    &&& r.mode == mode
    &&& r.limit == limit
    &&& r.filter.collection is None
    &&& r.filter.user_id is None
    &&& r.filter.organization_id is None
    &&& r.filter.language is None
    &&& r.filter.file_type is None
    &&& r.filter.tags@.len() == 0
    &&& r.filter.permissions@.len() == 0
    &&& r.filter.metadata@.len() == 0
}

impl RetrievalRequest {
    /// A semantic request with no filter.
    pub fn semantic(query: &str, collection: &str, limit: usize) -> (r: Self)
        ensures
            plain_request(r, query@, collection@, RetrievalMode::Semantic, limit),
    {
        RetrievalRequest {
            query: query.to_owned(),
            collection: collection.to_owned(),
            mode: RetrievalMode::Semantic,
            limit,
            filter: RetrievalFilter::new(),
        }
    }

    /// A keyword request with no filter.
    pub fn keyword(query: &str, collection: &str, limit: usize) -> (r: Self)
        ensures
            plain_request(r, query@, collection@, RetrievalMode::Keyword, limit),
    {
        RetrievalRequest {
            query: query.to_owned(),
            collection: collection.to_owned(),
            mode: RetrievalMode::Keyword,
            limit,
            filter: RetrievalFilter::new(),
        }
    }

    /// A hybrid request with no filter.
    pub fn hybrid(query: &str, collection: &str, limit: usize) -> (r: Self)
        ensures
            plain_request(r, query@, collection@, RetrievalMode::Hybrid, limit),
    {
        RetrievalRequest {
            query: query.to_owned(),
            collection: collection.to_owned(),
            mode: RetrievalMode::Hybrid,
            limit,
            filter: RetrievalFilter::new(),
        }
    }

    /// The number of results to return: the limit, at least one; a
    /// validation error when the query or the collection is blank.
    pub fn validated_limit(&self) -> (r: Result<usize, ContextraError>)
        ensures
            trim(self.query@).len() == 0 ==> (r matches Err(ContextraError::Validation(m)) && m@
                == "retrieval query cannot be empty"@),
            trim(self.query@).len() > 0 && trim(self.collection@).len() == 0 ==> (r matches Err(
                ContextraError::Validation(m),
            ) && m@ == "retrieval collection cannot be empty"@),
            trim(self.query@).len() > 0 && trim(self.collection@).len() > 0 ==> r == Ok::<
                usize,
                ContextraError,
            >(
                if self.limit >= 1 {
                    self.limit
                } else {
                    1
                },
            ),
    {
        if trim_chars(&chars_of(self.query.as_str())).len() == 0 {
            return Err(ContextraError::Validation("retrieval query cannot be empty".to_owned()));
        }
        if trim_chars(&chars_of(self.collection.as_str())).len() == 0 {
            return Err(ContextraError::Validation("retrieval collection cannot be empty".to_owned()));
        }
        Ok(if self.limit >= 1 { self.limit } else { 1 })
    }
}

/// The number of candidates to fetch for a request limit: the limit (at
/// least one) times the multiplier, saturating, and at least the floor.
pub open spec fn candidate_count(limit: usize, multiplier: usize, floor: usize) -> nat {
    let l = if limit >= 1 {
        limit as nat
    } else {
        1
    };
    let grown: nat = if l * multiplier > usize::MAX {
        usize::MAX as nat
    } else {
        (l * multiplier) as nat
    };
    if grown >= floor {
        grown
    } else {
        floor as nat
    }
}

/// The number of candidates to fetch for a request limit.
pub fn candidate_limit(request_limit: usize, multiplier: usize, floor: usize) -> (r: usize)
    ensures
        r == candidate_count(request_limit, multiplier, floor),
{
    let l = if request_limit >= 1 { request_limit } else { 1 };
    let grown = match l.checked_mul(multiplier) {
        Some(g) => g,
        None => usize::MAX,
    };
    if grown >= floor {
        grown
    } else {
        floor
    }
}

/// The positions of the payloads that pass the filter, in order.
pub open spec fn admitted_positions(f: RetrievalFilter, payloads: Seq<Map<Seq<char>, JsonView>>) -> Seq<
    int,
>
    decreases payloads.len(),
{
    if payloads.len() == 0 {
        Seq::empty()
    } else if filter_admits(f, payloads.last()) {
        admitted_positions(f, payloads.drop_last()).push(payloads.len() - 1)
    } else {
        admitted_positions(f, payloads.drop_last())
    }
}

/// The views of a sequence of metadata.
pub open spec fn metadata_views(ms: Seq<Metadata>) -> Seq<Map<Seq<char>, JsonView>> {
    ms.map_values(|m: Metadata| m@)
}

impl RetrievalFilter {
    /// The positions of the payloads that pass this filter, in order.
    pub fn admitted(&self, payloads: &[Metadata]) -> (r: Vec<usize>)
        ensures
            r@.map_values(|i: usize| i as int) == admitted_positions(*self, metadata_views(payloads@)),
    {
        let ghost pv = metadata_views(payloads@);
        let mut r: Vec<usize> = Vec::new();
        let mut i: usize = 0;
        proof {
            assert(r@.map_values(|i: usize| i as int) =~= admitted_positions(*self, pv.take(0)));
        }
        while i < payloads.len()
            invariant
                i <= payloads.len(),
                pv == metadata_views(payloads@),
                r@.map_values(|i: usize| i as int) == admitted_positions(*self, pv.take(i as int)),
            decreases payloads.len() - i,
        {
            proof {
                assert(pv.take(i + 1).drop_last() =~= pv.take(i as int));
                assert(pv.take(i + 1).last() == payloads@[i as int]@);
            }
            if self.matches(&payloads[i]) {
                let ghost before = r@;
                r.push(i);
                proof {
                    assert(r@.map_values(|i: usize| i as int) =~= before.map_values(|i: usize| i as int).push(
                        i as int,
                    ));
                }
            }
            i = i + 1;
        }
        proof {
            assert(pv.take(payloads.len() as int) =~= pv);
        }
        r
    }
}

// ---------------------------------------------------------------------------
// Payload text
// ---------------------------------------------------------------------------

/// The texts of a value: a string itself, the text of a number or boolean,
/// the texts of the items of an array or of the values of an object, in
/// order; none for null.
pub open spec fn value_texts(v: JsonView) -> Seq<Seq<char>>
    decreases v, 1int,
{
    match v {
        JsonView::Str(s) => seq![s],
        JsonView::Number(t, _, _) => seq![t],
        JsonView::Bool(b) => seq![bool_text(b)],
        JsonView::Array(items) => items_texts(items),
        JsonView::Object(entries) => entries_texts(entries),
        JsonView::Null => Seq::empty(),
    }
}

/// The texts of the items, in order.
pub open spec fn items_texts(items: Seq<JsonView>) -> Seq<Seq<char>>
    decreases items, 0int,
{
    if items.len() == 0 {
        Seq::empty()
    } else {
        items_texts(items.drop_last()) + value_texts(items.last())
    }
}

/// The texts of the entries' values, in order.
pub open spec fn entries_texts(entries: Seq<(Seq<char>, JsonView)>) -> Seq<Seq<char>>
    decreases entries, 0int,
{
    if entries.len() == 0 {
        Seq::empty()
    } else {
        entries_texts(entries.drop_last()) + value_texts(entries.last().1)
    }
}

/// The texts of the payload values of the fields, in field order.
pub open spec fn fields_texts(payload: Map<Seq<char>, JsonView>, fields: Seq<Seq<char>>) -> Seq<Seq<char>>
    decreases fields.len(),
{
    if fields.len() == 0 {
        Seq::empty()
    } else if payload.contains_key(fields.last()) {
        fields_texts(payload, fields.drop_last()) + value_texts(payload[fields.last()])
    } else {
        fields_texts(payload, fields.drop_last())
    }
}

fn push_texts(out: &mut Vec<String>, v: &JsonValue)
    ensures
        strings(final(out)@) == strings(old(out)@) + value_texts(v@),
    decreases v,
{
    match v {
        JsonValue::String(s) => {
            let ghost before = strings(out@);
            out.push(s.clone());
            proof {
                assert(strings(out@) =~= before + seq![s@]);
            }
        },
        JsonValue::Number(n) => {
            let ghost before = strings(out@);
            out.push(n.text.clone());
            proof {
                assert(strings(out@) =~= before + seq![n.text@]);
            }
        },
        JsonValue::Bool(b) => {
            let ghost before = strings(out@);
            let t = if *b { "true".to_owned() } else { "false".to_owned() };
            out.push(t);
            proof {
                assert(strings(out@) =~= before + seq![bool_text(*b)]);
            }
        },
        JsonValue::Array(items) => {
            let ghost start = strings(out@);
            let mut i: usize = 0;
            proof {
                assert(items@.take(0) =~= Seq::<JsonValue>::empty());
                assert(start + items_texts(json_views(items@.take(0))) =~= start);
            }
            while i < items.len()
                invariant
                    i <= items.len(),
                    *v == JsonValue::Array(*items),
                    strings(out@) == start + items_texts(json_views(items@.take(i as int))),
                decreases items.len() - i,
            {
                proof {
                    assert(decreases_to!(*v => (*v)->Array_0));
                    assert(decreases_to!(*items => items[i as int]));
                    assert(items@.take(i + 1).drop_last() =~= items@.take(i as int));
                    let a = json_views(items@.take(i as int));
                    assert(a.push(json_view(items@[i as int])).drop_last() =~= a);
                }
                push_texts(out, &items[i]);
                proof {
                    let a = json_views(items@.take(i as int));
                    assert(start + items_texts(a) + value_texts(json_view(items@[i as int])) =~= start + (
                    items_texts(a) + value_texts(json_view(items@[i as int]))));
                }
                i = i + 1;
            }
            proof {
                assert(items@.take(items.len() as int) =~= items@);
            }
        },
        JsonValue::Object(entries) => {
            let ghost start = strings(out@);
            let mut i: usize = 0;
            proof {
                assert(entries@.take(0) =~= Seq::<(String, JsonValue)>::empty());
                assert(start + entries_texts(entry_views(entries@.take(0))) =~= start);
            }
            while i < entries.len()
                invariant
                    i <= entries.len(),
                    *v == JsonValue::Object(*entries),
                    strings(out@) == start + entries_texts(entry_views(entries@.take(i as int))),
                decreases entries.len() - i,
            {
                proof {
                    assert(decreases_to!(*v => (*v)->Object_0));
                    assert(decreases_to!(*entries => entries[i as int]));
                    assert(decreases_to!(entries[i as int] => entries[i as int].1));
                    assert(entries@.take(i + 1).drop_last() =~= entries@.take(i as int));
                    let a = entry_views(entries@.take(i as int));
                    assert(a.push((entries@[i as int].0@, json_view(entries@[i as int].1))).drop_last() =~= a);
                }
                push_texts(out, &entries[i].1);
                proof {
                    let a = entry_views(entries@.take(i as int));
                    assert(start + entries_texts(a) + value_texts(json_view(entries@[i as int].1)) =~= start + (
                    entries_texts(a) + value_texts(json_view(entries@[i as int].1))));
                }
                i = i + 1;
            }
            proof {
                assert(entries@.take(entries.len() as int) =~= entries@);
            }
        },
        JsonValue::Null => {
            proof {
                assert(strings(out@) =~= strings(out@) + Seq::<Seq<char>>::empty());
            }
        },
    }
}

/// The texts of a value.
pub fn value_text(v: &JsonValue) -> (r: Vec<String>)
    ensures
        strings(r@) == value_texts(v@),
{
    let mut out: Vec<String> = Vec::new();
    proof {
        assert(strings(out@) =~= Seq::<Seq<char>>::empty());
    }
    push_texts(&mut out, v);
    proof {
        assert(Seq::<Seq<char>>::empty() + value_texts(v@) =~= value_texts(v@));
    }
    out
}

/// The searchable text of a payload: the texts of the values of the
/// fields, in field order, joined by spaces.
pub fn payload_text(payload: &Metadata, fields: &Vec<String>) -> (r: String)
    ensures
        r@ == join(fields_texts(payload@, strings(fields@)), seq![' ']),
{
    let ghost fv = strings(fields@);
    let mut texts: Vec<String> = Vec::new();
    let mut i: usize = 0;
    proof {
        assert(strings(texts@) =~= fields_texts(payload@, fv.take(0)));
    }
    while i < fields.len()
        invariant
            i <= fields.len(),
            fv == strings(fields@),
            strings(texts@) == fields_texts(payload@, fv.take(i as int)),
        decreases fields.len() - i,
    {
        proof {
            assert(fv.take(i + 1).drop_last() =~= fv.take(i as int));
            assert(fv.take(i + 1).last() == fields@[i as int]@);
        }
        match payload.get(fields[i].as_str()) {
            Some(v) => {
                push_texts(&mut texts, v);
            },
            None => {},
        }
        i = i + 1;
    }
    proof {
        assert(fv.take(fields.len() as int) =~= fv);
    }
    let mut cs: Vec<Vec<char>> = Vec::new();
    let mut j: usize = 0;
    while j < texts.len()
        invariant
            j <= texts.len(),
            crate::text::words(cs@) == strings(texts@).take(j as int),
        decreases texts.len() - j,
    {
        let c = chars_of(texts[j].as_str());
        let ghost before = crate::text::words(cs@);
        let ghost cv = c@;
        cs.push(c);
        proof {
            assert(crate::text::words(cs@) =~= before.push(cv));
            assert(strings(texts@).take(j + 1) =~= strings(texts@).take(j as int).push(texts@[j as int]@));
        }
        j = j + 1;
    }
    proof {
        assert(strings(texts@).take(texts.len() as int) =~= strings(texts@));
    }
    let mut sp: Vec<char> = Vec::new();
    sp.push(' ');
    proof {
        assert(sp@ =~= seq![' ']);
    }
    let joined = crate::text::join_chars(&cs, &sp);
    crate::text::string_of(&joined)
}

// ---------------------------------------------------------------------------
// Keyword statistics
// ---------------------------------------------------------------------------

/// The distinct tokens, in order of first occurrence.
pub open spec fn distinct_terms(ts: Seq<Seq<char>>) -> Seq<Seq<char>>
    decreases ts.len(),
{
    if ts.len() == 0 {
        Seq::empty()
    } else {
        let prev = distinct_terms(ts.drop_last());
        if prev.contains(ts.last()) {
            prev
        } else {
            prev.push(ts.last())
        }
    }
}

/// How many times `t` occurs among the tokens.
pub open spec fn occurrences(ts: Seq<Seq<char>>, t: Seq<char>) -> nat
    decreases ts.len(),
{
    if ts.len() == 0 {
        0
    } else {
        occurrences(ts.drop_last(), t) + if ts.last() == t {
            1nat
        } else {
            0nat
        }
    }
}

/// How many of the documents' token sequences hold `t`.
pub open spec fn documents_with(docs: Seq<Seq<Seq<char>>>, t: Seq<char>) -> nat
    decreases docs.len(),
{
    if docs.len() == 0 {
        0
    } else {
        documents_with(docs.drop_last(), t) + if docs.last().contains(t) {
            1nat
        } else {
            0nat
        }
    }
}

/// The search tokens of a document text.
pub open spec fn document_tokens(text: Seq<char>) -> Seq<Seq<char>> {
    tokens_of(normalize(text))
}

/// The counts that keyword (BM25) scoring of documents against a query
/// works from.
#[derive(Debug)]
pub struct KeywordStats {
    /// The distinct search tokens of the query.
    pub terms: Vec<String>,
    /// The number of search tokens of each document.
    pub doc_lengths: Vec<usize>,
    /// For each document, how often each term occurs in it.
    pub term_counts: Vec<Vec<usize>>,
    /// For each term, how many documents hold it.
    pub doc_freqs: Vec<usize>,
}

/// The statistics of documents (their texts) against a query.
pub open spec fn stats_of(s: KeywordStats, query: Seq<char>, docs: Seq<Seq<char>>) -> bool {
    let terms = distinct_terms(document_tokens(query));
    let doc_tokens = docs.map_values(|d: Seq<char>| document_tokens(d));
    &&& strings(s.terms@) == terms
    &&& s.doc_lengths.len() == docs.len()
    &&& s.term_counts.len() == docs.len()
    &&& s.doc_freqs.len() == terms.len()
    &&& forall|d: int| 0 <= d < docs.len() ==> s.doc_lengths@[d] == doc_tokens[d].len()
    &&& forall|d: int|
        0 <= d < docs.len() ==> (#[trigger] s.term_counts@[d]).len() == terms.len() && forall|k: int|
            0 <= k < terms.len() ==> s.term_counts@[d]@[k] == occurrences(doc_tokens[d], terms[k])
    &&& forall|k: int| 0 <= k < terms.len() ==> s.doc_freqs@[k] == documents_with(doc_tokens, terms[k])
}

fn distinct_strings(ts: &Vec<String>) -> (r: Vec<String>)
    ensures
        strings(r@) == distinct_terms(strings(ts@)),
{
    let ghost tv = strings(ts@);
    let mut r: Vec<String> = Vec::new();
    let mut i: usize = 0;
    proof {
        assert(strings(r@) =~= distinct_terms(tv.take(0)));
    }
    while i < ts.len()
        invariant
            i <= ts.len(),
            tv == strings(ts@),
            strings(r@) == distinct_terms(tv.take(i as int)),
        decreases ts.len() - i,
    {
        proof {
            assert(tv.take(i + 1).drop_last() =~= tv.take(i as int));
            assert(tv.take(i + 1).last() == ts@[i as int]@);
        }
        if !contains_string(&r, &ts[i]) {
            let c = ts[i].clone();
            let ghost before = strings(r@);
            r.push(c);
            proof {
                assert(strings(r@) =~= before.push(c@));
            }
        }
        i = i + 1;
    }
    proof {
        assert(tv.take(ts.len() as int) =~= tv);
    }
    r
}

proof fn lemma_occurrences_bound(ts: Seq<Seq<char>>, t: Seq<char>)
    ensures
        occurrences(ts, t) <= ts.len(),
    decreases ts.len(),
{
    if ts.len() > 0 {
        lemma_occurrences_bound(ts.drop_last(), t);
    }
}

fn count_occurrences(ts: &Vec<String>, t: &String) -> (r: usize)
    ensures
        r == occurrences(strings(ts@), t@),
{
    let ghost tv = strings(ts@);
    let mut n: usize = 0;
    let mut i: usize = 0;
    while i < ts.len()
        invariant
            i <= ts.len(),
            tv == strings(ts@),
            n == occurrences(tv.take(i as int), t@),
        decreases ts.len() - i,
    {
        proof {
            assert(tv.take(i + 1).drop_last() =~= tv.take(i as int));
            assert(tv.take(i + 1).last() == ts@[i as int]@);
            lemma_occurrences_bound(tv.take(i as int), t@);
        }
        if ts[i] == *t {
            n = n + 1;
        }
        i = i + 1;
    }
    proof {
        assert(tv.take(ts.len() as int) =~= tv);
    }
    n
}

proof fn lemma_documents_with_bound(docs: Seq<Seq<Seq<char>>>, t: Seq<char>)
    ensures
        documents_with(docs, t) <= docs.len(),
    decreases docs.len(),
{
    if docs.len() > 0 {
        lemma_documents_with_bound(docs.drop_last(), t);
    }
}

/// The keyword statistics of the documents (their texts) against a query.
pub fn keyword_stats(query: &str, documents: &Vec<String>) -> (r: KeywordStats)
    ensures
        stats_of(r, query@, strings(documents@)),
{
    let nq = normalize_query_text(query);
    let query_tokens = tokenize(nq.as_str());
    let terms = distinct_strings(&query_tokens);
    let ghost tv = strings(terms@);
    let ghost dv = strings(documents@);
    let ghost doc_tokens = dv.map_values(|d: Seq<char>| document_tokens(d));
    let mut all_tokens: Vec<Vec<String>> = Vec::new();
    let mut doc_lengths: Vec<usize> = Vec::new();
    let mut term_counts: Vec<Vec<usize>> = Vec::new();
    let mut d: usize = 0;
    while d < documents.len()
        invariant
            d <= documents.len(),
            tv == strings(terms@),
            dv == strings(documents@),
            doc_tokens == dv.map_values(|x: Seq<char>| document_tokens(x)),
            all_tokens.len() == d,
            doc_lengths.len() == d,
            term_counts.len() == d,
            forall|e: int| 0 <= e < d ==> strings((#[trigger] all_tokens@[e])@) == doc_tokens[e],
            forall|e: int| 0 <= e < d ==> doc_lengths@[e] == doc_tokens[e].len(),
            forall|e: int|
                0 <= e < d ==> (#[trigger] term_counts@[e]).len() == tv.len() && forall|k: int|
                    0 <= k < tv.len() ==> term_counts@[e]@[k] == occurrences(doc_tokens[e], tv[k]),
        decreases documents.len() - d,
    {
        let nd = normalize_query_text(documents[d].as_str());
        let toks = tokenize(nd.as_str());
        assert(strings(toks@) == doc_tokens[d as int]);
        let mut counts: Vec<usize> = Vec::new();
        let mut k: usize = 0;
        while k < terms.len()
            invariant
                k <= terms.len(),
                tv == strings(terms@),
                counts.len() == k,
                forall|j: int| 0 <= j < k ==> counts@[j] == occurrences(strings(toks@), tv[j]),
            decreases terms.len() - k,
        {
            let c = count_occurrences(&toks, &terms[k]);
            counts.push(c);
            k = k + 1;
        }
        doc_lengths.push(toks.len());
        term_counts.push(counts);
        all_tokens.push(toks);
        d = d + 1;
    }
    let mut doc_freqs: Vec<usize> = Vec::new();
    let mut k: usize = 0;
    while k < terms.len()
        invariant
            k <= terms.len(),
            tv == strings(terms@),
            all_tokens.len() == documents.len(),
            dv == strings(documents@),
            doc_tokens == dv.map_values(|x: Seq<char>| document_tokens(x)),
            forall|e: int| 0 <= e < all_tokens.len() ==> strings((#[trigger] all_tokens@[e])@) == doc_tokens[e],
            doc_freqs.len() == k,
            forall|j: int| 0 <= j < k ==> doc_freqs@[j] == documents_with(doc_tokens, tv[j]),
        decreases terms.len() - k,
    {
        let mut n: usize = 0;
        let mut e: usize = 0;
        while e < all_tokens.len()
            invariant
                e <= all_tokens.len(),
                k < terms.len(),
                tv == strings(terms@),
                all_tokens.len() == doc_tokens.len(),
                forall|x: int| 0 <= x < all_tokens.len() ==> strings((#[trigger] all_tokens@[x])@) == doc_tokens[x],
                n == documents_with(doc_tokens.take(e as int), tv[k as int]),
            decreases all_tokens.len() - e,
        {
            proof {
                assert(doc_tokens.take(e + 1).drop_last() =~= doc_tokens.take(e as int));
                assert(doc_tokens.take(e + 1).last() == doc_tokens[e as int]);
                lemma_documents_with_bound(doc_tokens.take(e as int), tv[k as int]);
            }
            if contains_string(&all_tokens[e], &terms[k]) {
                n = n + 1;
            }
            e = e + 1;
        }
        proof {
            assert(doc_tokens.take(all_tokens.len() as int) =~= doc_tokens);
        }
        doc_freqs.push(n);
        k = k + 1;
    }
    KeywordStats { terms, doc_lengths, term_counts, doc_freqs }
}

/// A filter without restrictions admits every payload.
pub proof fn law_unrestricted_filter_admits_all(f: RetrievalFilter, payload: Map<Seq<char>, JsonView>)
    requires
        f.collection is None,
        f.user_id is None,
        f.organization_id is None,
        f.language is None,
        f.file_type is None,
        f.tags@.len() == 0,
        f.permissions@.len() == 0,
        f.metadata@.len() == 0,
    ensures
        filter_admits(f, payload),
{
    assert(strings(f.tags@).len() == 0);
    assert(strings(f.permissions@).len() == 0);
}

/// A search fetches at least the floor of candidates and, with a positive
/// multiplier, at least as many as the request asks for (at least one).
pub proof fn law_candidates_cover_request(limit: usize, multiplier: usize, floor: usize)
    ensures
        candidate_count(limit, multiplier, floor) >= floor,
        candidate_count(limit, multiplier, floor) <= usize::MAX,
        multiplier >= 1 ==> candidate_count(limit, multiplier, floor) >= if limit >= 1 {
            limit as nat
        } else {
            1
        },
{
    let l: nat = if limit >= 1 {
        limit as nat
    } else {
        1
    };
    if multiplier >= 1 {
        assert(l * multiplier >= l) by (nonlinear_arith)
            requires
                multiplier >= 1,
        ;
    }
}

/// Every requested tag is required: a payload that a filter admits has a
/// `tags` field whose value contains each of the filter's tags; and when
/// the filter asks for permissions, the payload's `permissions` value
/// contains one of them.
pub proof fn law_filter_requires_every_tag(f: RetrievalFilter, payload: Map<Seq<char>, JsonView>)
    requires
        filter_admits(f, payload),
    ensures
        forall|t: Seq<char>|
            strings(f.tags@).contains(t) ==> payload.contains_key("tags"@) && #[trigger] value_contains(
                payload["tags"@],
                t,
            ),
        f.permissions@.len() > 0 ==> exists|t: Seq<char>|
            strings(f.permissions@).contains(t) && payload.contains_key("permissions"@)
                && #[trigger] value_contains(payload["permissions"@], t),
{
    let tags = strings(f.tags@);
    assert forall|t: Seq<char>| tags.contains(t) implies payload.contains_key("tags"@)
        && #[trigger] value_contains(payload["tags"@], t) by {
        let i = choose|i: int| 0 <= i < tags.len() && tags[i] == t;
        assert(payload_contains(payload, "tags"@, tags[i]));
    }
    let perms = strings(f.permissions@);
    if f.permissions@.len() > 0 {
        let i = choose|i: int| 0 <= i < perms.len() && payload_contains(payload, "permissions"@, perms[i]);
        assert(perms.contains(perms[i]));
    }
}
} // verus!
