//! JSON documents as plain trees.

use crate::text;
use vstd::prelude::*;

verus! {

/// The number type of `serde_json`, carried through for numbers that are not
/// unsigned integers.
#[verifier::external_type_specification]
#[verifier::external_body]
pub struct ExNumber(serde_json::Number);

/// A JSON value.
pub enum Json {
    Null,
    Bool(bool),
    Unsigned(u64),
    /// A negative or fractional number.
    Number(serde_json::Number),
    Text(String),
    Array(Vec<Json>),
    Object(Vec<(String, Json)>),
}

/// The contents of a JSON value.
#[verifier::ext_equal]
pub enum JsonView {
    Null,
    Bool(bool),
    Unsigned(u64),
    Number(serde_json::Number),
    Text(Seq<char>),
    Array(Seq<JsonView>),
    Object(Seq<(Seq<char>, JsonView)>),
}

impl DeepView for Json {
    type V = JsonView;

    open spec fn deep_view(&self) -> JsonView
        decreases self,
    {
        match self {
            Json::Null => JsonView::Null,
            Json::Bool(b) => JsonView::Bool(*b),
            Json::Unsigned(n) => JsonView::Unsigned(*n),
            Json::Number(n) => JsonView::Number(*n),
            Json::Text(s) => JsonView::Text(s@),
            Json::Array(v) => JsonView::Array(
                Seq::new(
                    v@.len(),
                    |i: int|
                        if 0 <= i < v@.len() {
                            v@[i].deep_view()
                        } else {
                            JsonView::Null
                        },
                ),
            ),
            Json::Object(v) => JsonView::Object(
                Seq::new(
                    v@.len(),
                    |i: int|
                        if 0 <= i < v@.len() {
                            (v@[i].0@, v@[i].1.deep_view())
                        } else {
                            (Seq::empty(), JsonView::Null)
                        },
                ),
            ),
        }
    }
}

/// The value type of `serde_json`; it stands only where a tree is made of one
/// or turned into one.
#[verifier::external_type_specification]
#[verifier::external_body]
pub struct ExValue(serde_json::Value);

/// The pairs of an object.
pub type JsonPairs = Seq<(Seq<char>, JsonView)>;

/// The position of `key` among the pairs from `at` on.
pub open spec fn key_from(pairs: JsonPairs, key: Seq<char>, at: int) -> Option<int>
    decreases pairs.len() - at,
{
    if at < 0 || at >= pairs.len() {
        None
    } else if pairs[at].0 == key {
        Some(at)
    } else {
        key_from(pairs, key, at + 1)
    }
}

/// The value that `pairs` hold under `key`.
pub open spec fn pair_value(pairs: JsonPairs, key: Seq<char>) -> Option<JsonView> {
    match key_from(pairs, key, 0) {
        Some(i) => Some(pairs[i].1),
        None => None,
    }
}

/// `pairs` with `value` under `key`: in place of what stood there, or at the
/// end.
pub open spec fn with_pair(pairs: JsonPairs, key: Seq<char>, value: JsonView) -> JsonPairs {
    match key_from(pairs, key, 0) {
        Some(i) => pairs.update(i, (key, value)),
        None => pairs.push((key, value)),
    }
}

impl JsonView {
    /// The member `key` of an object.
    pub open spec fn member(self, key: Seq<char>) -> Option<JsonView> {
        match self {
            JsonView::Object(pairs) => pair_value(pairs, key),
            _ => None,
        }
    }

    /// The text of a text value.
    pub open spec fn text(self) -> Option<Seq<char>> {
        match self {
            JsonView::Text(s) => Some(s),
            _ => None,
        }
    }

    /// The items of an array.
    pub open spec fn items(self) -> Option<Seq<JsonView>> {
        match self {
            JsonView::Array(v) => Some(v),
            _ => None,
        }
    }
}

/// The member `key` of the value, where there is one.
pub open spec fn member_of(v: Option<JsonView>, key: Seq<char>) -> Option<JsonView> {
    match v {
        Some(v) => v.member(key),
        None => None,
    }
}

/// The text of the value, where it is one.
pub open spec fn text_in(v: Option<JsonView>) -> Option<Seq<char>> {
    match v {
        Some(v) => v.text(),
        None => None,
    }
}

/// The text of the value, or nothing where it is none.
pub open spec fn text_or_empty(v: Option<JsonView>) -> Seq<char> {
    match text_in(v) {
        Some(s) => s,
        None => Seq::empty(),
    }
}

/// The texts among the items of a sequence, in order.
pub open spec fn texts_of(items: Seq<JsonView>) -> Seq<Seq<char>>
    decreases items.len(),
{
    if items.len() == 0 {
        Seq::empty()
    } else {
        match items.last() {
            JsonView::Text(s) => texts_of(items.drop_last()).push(s),
            _ => texts_of(items.drop_last()),
        }
    }
}

/// The texts among the items of an array; nothing where it is none.
pub open spec fn text_list(v: Option<JsonView>) -> Seq<Seq<char>> {
    match v {
        Some(JsonView::Array(items)) => texts_of(items),
        _ => Seq::empty(),
    }
}

/// Whether no member is named twice.
pub open spec fn keys_distinct(pairs: JsonPairs) -> bool {
    forall|i: int, j: int| 0 <= i < j < pairs.len() ==> pairs[i].0 != pairs[j].0
}

/// Whether the numbers of a value are unsigned integers, its objects name no
/// member twice, and it is nested no deeper than `depth`.
pub open spec fn plain_json(v: JsonView, depth: nat) -> bool
    decreases depth,
{
    match v {
        JsonView::Number(_) => false,
        JsonView::Array(items) => depth > 0 && forall|i: int|
            0 <= i < items.len() ==> plain_json(#[trigger] items[i], (depth - 1) as nat),
        JsonView::Object(pairs) => depth > 0 && keys_distinct(pairs) && forall|i: int|
            0 <= i < pairs.len() ==> plain_json((#[trigger] pairs[i]).1, (depth - 1) as nat),
        _ => true,
    }
}

/// Whether two values are the same down to `depth`, but for the order of
/// members.
pub open spec fn same_json(a: JsonView, b: JsonView, depth: nat) -> bool
    decreases depth,
{
    if depth == 0 {
        a == b
    } else {
        match (a, b) {
            (JsonView::Array(x), JsonView::Array(y)) => x.len() == y.len() && forall|i: int|
                0 <= i < x.len() ==> same_json(#[trigger] x[i], y[i], (depth - 1) as nat),
            (JsonView::Object(x), JsonView::Object(y)) => forall|key: Seq<char>|
                match (#[trigger] pair_value(x, key), pair_value(y, key)) {
                    (Some(v), Some(w)) => same_json(v, w, (depth - 1) as nat),
                    (None, None) => true,
                    _ => false,
                },
            _ => a == b,
        }
    }
}

/// Whether two values that may be missing are the same down to `depth`, but
/// for the order of members.
pub open spec fn same_where(a: Option<JsonView>, b: Option<JsonView>, depth: nat) -> bool {
    match (a, b) {
        (Some(v), Some(w)) => same_json(v, w, depth),
        (None, None) => true,
        _ => false,
    }
}

/// Values that are the same have the same members.
pub proof fn lemma_same_member(a: Option<JsonView>, b: Option<JsonView>, key: Seq<char>, depth: nat)
    requires
        same_where(a, b, depth),
        depth > 0,
    ensures
        same_where(member_of(a, key), member_of(b, key), (depth - 1) as nat),
{
    if a is Some {
        if let (JsonView::Object(x), JsonView::Object(y)) = (a->0, b->0) {
            assert(pair_value(x, key) is Some <==> pair_value(y, key) is Some);
        }
    }
}

/// Values that are the same hold the same text.
pub proof fn lemma_same_text(a: Option<JsonView>, b: Option<JsonView>, depth: nat)
    requires
        same_where(a, b, depth),
    ensures
        text_in(a) == text_in(b),
{
}

/// Values that are the same list the same texts.
pub proof fn lemma_same_list(a: Option<JsonView>, b: Option<JsonView>, depth: nat)
    requires
        same_where(a, b, depth),
        depth > 0,
    ensures
        text_list(a) == text_list(b),
{
    if let Some(JsonView::Array(x)) = a {
        if let Some(JsonView::Array(y)) = b {
            lemma_same_texts(x, y, (depth - 1) as nat);
        }
    }
}

proof fn lemma_same_texts(x: Seq<JsonView>, y: Seq<JsonView>, depth: nat)
    requires
        x.len() == y.len(),
        forall|i: int| 0 <= i < x.len() ==> same_json(#[trigger] x[i], y[i], depth),
    ensures
        texts_of(x) == texts_of(y),
    decreases x.len(),
{
    if x.len() > 0 {
        let a = x.drop_last();
        let b = y.drop_last();
        assert forall|i: int| 0 <= i < a.len() implies same_json(#[trigger] a[i], b[i], depth) by {
            assert(same_json(x[i], y[i], depth));
        }
        lemma_same_texts(a, b, depth);
        assert(same_json(x[x.len() - 1], y[x.len() - 1], depth));
    }
}

/// What the pairs of an object hold.
pub open spec fn pairs_view(v: Seq<(String, Json)>) -> JsonPairs {
    Seq::new(v.len(), |i: int| (v[i].0@, v[i].1.deep_view()))
}

/// What the items of an array hold.
pub open spec fn items_view(v: Seq<Json>) -> Seq<JsonView> {
    Seq::new(v.len(), |i: int| v[i].deep_view())
}

pub proof fn lemma_object_view(v: Vec<(String, Json)>)
    ensures
        Json::Object(v).deep_view() == JsonView::Object(pairs_view(v@)),
{
    reveal_with_fuel(<Json as DeepView>::deep_view, 2);
    assert(Json::Object(v).deep_view()->Object_0 =~= pairs_view(v@));
}

pub proof fn lemma_array_view(v: Vec<Json>)
    ensures
        Json::Array(v).deep_view() == JsonView::Array(items_view(v@)),
{
    reveal_with_fuel(<Json as DeepView>::deep_view, 2);
    assert(Json::Array(v).deep_view()->Array_0 =~= items_view(v@));
}

proof fn lemma_key_from(pairs: JsonPairs, key: Seq<char>, at: int)
    requires
        0 <= at,
    ensures
        key_from(pairs, key, at) matches Some(i) ==> at <= i < pairs.len() && pairs[i].0 == key,
        key_from(pairs, key, at) is None ==> forall|i: int|
            at <= i < pairs.len() ==> (#[trigger] pairs[i]).0 != key,
    decreases pairs.len() - at,
{
    if at < pairs.len() && pairs[at].0 != key {
        lemma_key_from(pairs, key, at + 1);
    }
}

proof fn lemma_key_from_same(a: JsonPairs, b: JsonPairs, key: Seq<char>, at: int)
    requires
        0 <= at,
        a.len() == b.len(),
        forall|i: int| 0 <= i < a.len() ==> (#[trigger] a[i]).0 == b[i].0,
    ensures
        key_from(a, key, at) == key_from(b, key, at),
    decreases a.len() - at,
{
    if at < a.len() {
        assert(a[at].0 == b[at].0);
        lemma_key_from_same(a, b, key, at + 1);
    }
}

proof fn lemma_key_from_push(a: JsonPairs, p: (Seq<char>, JsonView), key: Seq<char>, at: int)
    requires
        0 <= at <= a.len(),
    ensures
        key_from(a.push(p), key, at) == (match key_from(a, key, at) {
            Some(i) => Some(i),
            None => if p.0 == key {
                Some(a.len() as int)
            } else {
                None
            },
        }),
    decreases a.len() - at,
{
    if at < a.len() {
        assert(a.push(p)[at] == a[at]);
        lemma_key_from_push(a, p, key, at + 1);
    } else {
        assert(key_from(a.push(p), key, at + 1) is None);
    }
}

/// After a pair was put in, its key gives its value and every other key what
/// it gave before.
pub proof fn lemma_with_pair(pairs: JsonPairs, key: Seq<char>, value: JsonView, other: Seq<char>)
    ensures
        pair_value(with_pair(pairs, key, value), other) == (if other == key {
            Some(value)
        } else {
            pair_value(pairs, other)
        }),
{
    lemma_key_from(pairs, key, 0);
    lemma_key_from(pairs, other, 0);
    match key_from(pairs, key, 0) {
        Some(i) => {
            lemma_key_from_same(pairs, pairs.update(i, (key, value)), other, 0);
            lemma_key_from_same(pairs, pairs.update(i, (key, value)), key, 0);
        },
        None => {
            lemma_key_from_push(pairs, (key, value), other, 0);
        },
    }
}

fn find_key(v: &Vec<(String, Json)>, key: &str) -> (r: Option<usize>)
    ensures
        r matches Some(i) ==> i < v@.len(),
        key_from(pairs_view(v@), key@, 0) == (match r {
            Some(i) => Some(i as int),
            None => None,
        }),
{
    let mut i: usize = 0;
    while i < v.len()
        invariant
            i <= v@.len(),
            key_from(pairs_view(v@), key@, 0) == key_from(pairs_view(v@), key@, i as int),
        decreases v@.len() - i,
    {
        if text::same(v[i].0.as_str(), key) {
            return Some(i);
        }
        i = i + 1;
    }
    None
}

impl Json {
    /// The member `key` of an object.
    pub fn get(&self, key: &str) -> (r: Option<&Json>)
        ensures
            (match r {
                Some(v) => Some(v.deep_view()),
                None => None,
            }) == self.deep_view().member(key@),
    {
        match self {
            Json::Object(pairs) => {
                proof {
                    lemma_object_view(*pairs);
                }
                match find_key(pairs, key) {
                    Some(i) => Some(&pairs[i].1),
                    None => None,
                }
            },
            _ => None,
        }
    }

    /// The text of a text value.
    pub fn as_text(&self) -> (r: Option<&String>)
        ensures
            (match r {
                Some(s) => Some(s@),
                None => None,
            }) == self.deep_view().text(),
    {
        match self {
            Json::Text(s) => Some(s),
            _ => None,
        }
    }

    /// The value with `value` under `key`, where it is an object; any other
    /// value is left as it is.
    pub fn set(&mut self, key: &str, value: Json)
        ensures
            final(self).deep_view() == (match old(self).deep_view() {
                JsonView::Object(pairs) => JsonView::Object(
                    with_pair(pairs, key@, value.deep_view()),
                ),
                v => v,
            }),
    {
        match self {
            Json::Object(pairs) => {
                proof {
                    lemma_object_view(*pairs);
                }
                let ghost before = pairs_view(pairs@);
                match find_key(pairs, key) {
                    Some(i) => {
                        pairs[i] = (key.to_owned(), value);
                        assert(pairs_view(pairs@) =~= before.update(
                            i as int,
                            (key@, value.deep_view()),
                        ));
                    },
                    None => {
                        pairs.push((key.to_owned(), value));
                        assert(pairs_view(pairs@) =~= before.push((key@, value.deep_view())));
                    },
                }
                proof {
                    lemma_object_view(*pairs);
                }
            },
            _ => {},
        }
    }

    /// A copy of the value.
    pub fn copy(&self) -> (r: Json)
        ensures
            r.deep_view() == self.deep_view(),
        decreases self,
    {
        match self {
            Json::Null => Json::Null,
            Json::Bool(b) => Json::Bool(*b),
            Json::Unsigned(n) => Json::Unsigned(*n),
            Json::Number(n) => Json::Number(copy_number(n)),
            Json::Text(s) => Json::Text(s.clone()),
            Json::Array(v) => {
                let mut w: Vec<Json> = Vec::new();
                let mut i: usize = 0;
                while i < v.len()
                    invariant
                        i <= v@.len(),
                        *self == Json::Array(*v),
                        items_view(w@) == items_view(v@).take(i as int),
                    decreases v@.len() - i,
                {
                    assert(decreases_to!(*self => self->Array_0));
                    assert(decreases_to!(self->Array_0 => self->Array_0@));
                    assert(decreases_to!(self->Array_0@ => self->Array_0@[i as int]));
                    let x: Json = v[i].copy();
                    let ghost before = items_view(w@);
                    w.push(x);
                    assert(items_view(w@) =~= before.push(x.deep_view()));
                    i = i + 1;
                    assert(items_view(w@) =~= items_view(v@).take(i as int));
                }
                proof {
                    assert(items_view(v@).take(i as int) =~= items_view(v@));
                    lemma_array_view(*v);
                    lemma_array_view(w);
                }
                Json::Array(w)
            },
            Json::Object(v) => {
                let mut w: Vec<(String, Json)> = Vec::new();
                let mut i: usize = 0;
                while i < v.len()
                    invariant
                        i <= v@.len(),
                        *self == Json::Object(*v),
                        pairs_view(w@) == pairs_view(v@).take(i as int),
                    decreases v@.len() - i,
                {
                    assert(decreases_to!(*self => self->Object_0));
                    assert(decreases_to!(self->Object_0 => self->Object_0@));
                    assert(decreases_to!(self->Object_0@ => self->Object_0@[i as int]));
                    assert(decreases_to!(self->Object_0@[i as int] => self->Object_0@[i as int].1));
                    let x: Json = v[i].1.copy();
                    let ghost before = pairs_view(w@);
                    w.push((v[i].0.clone(), x));
                    assert(pairs_view(w@) =~= before.push((v@[i as int].0@, x.deep_view())));
                    i = i + 1;
                    assert(pairs_view(w@) =~= pairs_view(v@).take(i as int));
                }
                proof {
                    assert(pairs_view(v@).take(i as int) =~= pairs_view(v@));
                    lemma_object_view(*v);
                    lemma_object_view(w);
                }
                Json::Object(w)
            },
        }
    }
}

/// The text of the value, or nothing where it is none.
pub fn text_or_default(v: Option<&Json>) -> (r: String)
    ensures
        r@ == text_or_empty(match v {
            Some(v) => Some(v.deep_view()),
            None => None,
        }),
{
    match v {
        Some(v) => match v.as_text() {
            Some(s) => s.clone(),
            None => String::new(),
        },
        None => String::new(),
    }
}

/// The texts among the items of an array; nothing where it is none.
pub fn read_text_list(v: Option<&Json>) -> (r: Vec<String>)
    ensures
        r.deep_view() == text_list(match v {
            Some(v) => Some(v.deep_view()),
            None => None,
        }),
{
    let mut r: Vec<String> = Vec::new();
    assert(r.deep_view() =~= Seq::<Seq<char>>::empty());
    match v {
        Some(Json::Array(items)) => {
            proof {
                lemma_array_view(*items);
            }
            let ghost all = items_view(items@);
            let mut i: usize = 0;
            assert(all.take(0) =~= Seq::<JsonView>::empty());
            while i < items.len()
                invariant
                    i <= items@.len(),
                    all == items_view(items@),
                    r.deep_view() == texts_of(all.take(i as int)),
                decreases items@.len() - i,
            {
                let ghost next = all.take(i + 1);
                assert(next.drop_last() =~= all.take(i as int));
                assert(next.last() == items@[i as int].deep_view());
                let ghost before = r.deep_view();
                match items[i].as_text() {
                    Some(s) => {
                        r.push(s.clone());
                        assert(r.deep_view() =~= before.push(s@));
                    },
                    None => {},
                }
                i = i + 1;
            }
            assert(all.take(i as int) =~= all);
        },
        _ => {},
    }
    r
}

/// Adds a member to an object that is built.
pub fn add_pair(v: &mut Vec<(String, Json)>, key: &str, value: Json)
    ensures
        pairs_view(final(v)@) == pairs_view(old(v)@).push((key@, value.deep_view())),
{
    let ghost before = pairs_view(v@);
    v.push((key.to_string(), value));
    assert(pairs_view(v@) =~= before.push((key@, value.deep_view())));
}

/// The texts as an array.
pub open spec fn text_array(v: Seq<Seq<char>>) -> JsonView {
    JsonView::Array(Seq::new(v.len(), |i: int| JsonView::Text(v[i])))
}

/// The texts as an array.
pub fn array_of_texts(v: &Vec<String>) -> (r: Json)
    ensures
        r.deep_view() == text_array(v.deep_view()),
{
    let mut w: Vec<Json> = Vec::new();
    let mut i: usize = 0;
    while i < v.len()
        invariant
            i <= v@.len(),
            w@.len() == i,
            forall|k: int|
                0 <= k < i ==> (#[trigger] w@[k]).deep_view() == JsonView::Text(v@[k]@),
        decreases v@.len() - i,
    {
        w.push(Json::Text(v[i].clone()));
        i = i + 1;
    }
    proof {
        lemma_array_view(w);
        assert(items_view(w@) =~= Seq::new(
            v.deep_view().len(),
            |k: int| JsonView::Text(v.deep_view()[k]),
        ));
    }
    Json::Array(w)
}

/// Reading back an array of texts gives the texts.
pub proof fn lemma_texts_of_array(v: Seq<Seq<char>>)
    ensures
        text_list(Some(text_array(v))) == v,
    decreases v.len(),
{
    let items = Seq::new(v.len(), |i: int| JsonView::Text(v[i]));
    if v.len() > 0 {
        lemma_texts_of_array(v.drop_last());
        let fewer = Seq::new(v.drop_last().len(), |i: int| JsonView::Text(v.drop_last()[i]));
        assert(items.drop_last() =~= fewer);
        assert(texts_of(items) =~= v);
    } else {
        assert(texts_of(items) =~= v);
    }
}

// ---------------------------------------------------------------------------
// serde_json
// ---------------------------------------------------------------------------

/// The tree that a text spells as JSON, or nothing where it spells none.
pub uninterp spec fn parsed_json(s: Seq<char>) -> Option<JsonView>;

/// The text that `serde_json` writes for a tree, indented.
pub uninterp spec fn pretty_json(v: JsonView) -> Option<Seq<char>>;

/// Whether a text was written for a value and, where the value is plain, is
/// read back as it.
pub open spec fn reads_back(s: Option<Seq<char>>, v: JsonView) -> bool {
    match s {
        Some(s) => plain_json(v, 100) ==> same_where(parsed_json(s), Some(v), 100),
        None => false,
    }
}

/// `serde_json::Number::clone` gives an equal number.
#[verifier::external_body]
fn copy_number(n: &serde_json::Number) -> (r: serde_json::Number)
    ensures
        r == *n,
{
    n.clone()
}

/// Turns a `serde_json::Value` into the tree of the same shape.
#[verifier::external_body]
fn tree_of(v: serde_json::Value) -> Json {
    match v {
        serde_json::Value::Null => Json::Null,
        serde_json::Value::Bool(b) => Json::Bool(b),
        serde_json::Value::Number(n) => n.as_u64().map_or(Json::Number(n), Json::Unsigned),
        serde_json::Value::String(s) => Json::Text(s),
        serde_json::Value::Array(v) => Json::Array(v.into_iter().map(tree_of).collect()),
        serde_json::Value::Object(m) => {
            Json::Object(m.into_iter().map(|(k, v)| (k, tree_of(v))).collect())
        },
    }
}

/// Turns a tree into the `serde_json::Value` of the same shape.
#[verifier::external_body]
fn value_of(v: &Json) -> serde_json::Value {
    match v {
        Json::Null => serde_json::Value::Null,
        Json::Bool(b) => serde_json::Value::Bool(*b),
        Json::Unsigned(n) => serde_json::Value::from(*n),
        Json::Number(n) => serde_json::Value::Number(n.clone()),
        Json::Text(s) => serde_json::Value::String(s.clone()),
        Json::Array(v) => serde_json::Value::Array(v.iter().map(value_of).collect()),
        Json::Object(v) => {
            serde_json::Value::Object(v.iter().map(|(k, v)| (k.clone(), value_of(v))).collect())
        },
    }
}

/// `serde_json::from_str` reads a text as a value; what it reads depends on
/// the text alone.
#[verifier::external_body]
pub(crate) fn parse_json(s: &str) -> (r: Option<Json>)
    ensures
        (match r {
            Some(v) => Some(v.deep_view()),
            None => None,
        }) == parsed_json(s@),
{
    serde_json::from_str::<serde_json::Value>(s).ok().map(tree_of)
}

/// `serde_json::to_string_pretty` writes a value; what it writes depends on
/// the value alone. It does not fail on a value, and `serde_json::from_str`
/// reads back what it wrote, but for the order of members: of a value whose
/// numbers are unsigned integers, whose objects name no member twice, and that
/// is nested no deeper than the reader goes. Nothing is said of reading back
/// other numbers.
#[verifier::external_body]
pub(crate) fn render_json(v: &Json) -> (r: Option<String>)
    ensures
        r.deep_view() == pretty_json(v.deep_view()),
        reads_back(r.deep_view(), v.deep_view()),
{
    serde_json::to_string_pretty(&value_of(v)).ok()
}

// ---------------------------------------------------------------------------
// laws
// ---------------------------------------------------------------------------

/// A member of an object is found under its key: the first pair with the key
/// counts, and a key that stands nowhere has no member.
pub proof fn first_pair_with_the_key_counts(pairs: JsonPairs, key: Seq<char>, i: int)
    requires
        0 <= i <= pairs.len(),
        forall|j: int| 0 <= j < i ==> (#[trigger] pairs[j]).0 != key,
    ensures
        i < pairs.len() && pairs[i].0 == key ==> JsonView::Object(pairs).member(key) == Some(
            pairs[i].1,
        ),
        i == pairs.len() ==> JsonView::Object(pairs).member(key) is None,
{
    lemma_key_ahead(pairs, key, 0, i);
}

proof fn lemma_key_ahead(pairs: JsonPairs, key: Seq<char>, from: int, i: int)
    requires
        0 <= from <= i <= pairs.len(),
        forall|j: int| from <= j < i ==> (#[trigger] pairs[j]).0 != key,
    ensures
        key_from(pairs, key, from) == key_from(pairs, key, i),
    decreases i - from,
{
    if from < i {
        lemma_key_ahead(pairs, key, from + 1, i);
    }
}

/// A key that stands nowhere among pairs has no place there.
pub proof fn lemma_key_absent(pairs: JsonPairs, key: Seq<char>)
    requires
        forall|j: int| 0 <= j < pairs.len() ==> (#[trigger] pairs[j]).0 != key,
    ensures
        key_from(pairs, key, 0) is None,
{
    lemma_key_ahead(pairs, key, 0, pairs.len() as int);
}

/// The texts of a list are all its items that are texts, in order.
pub proof fn every_text_is_listed(items: Seq<JsonView>)
    ensures
        text_list(Some(JsonView::Array(items))) == items.filter(
            |v: JsonView| v is Text,
        ).map_values(|v: JsonView| v->Text_0),
    decreases items.len(),
{
    reveal(Seq::filter);
    let pick = |v: JsonView| v is Text;
    let take = |v: JsonView| v->Text_0;
    if items.len() > 0 {
        every_text_is_listed(items.drop_last());
        let head = items.drop_last().filter(pick);
        if pick(items.last()) {
            assert(head.push(items.last()).map_values(take) =~= head.map_values(take).push(
                take(items.last()),
            ));
        }
    }
    assert(texts_of(items) =~= items.filter(pick).map_values(take));
}

/// A text member is read as its text; a member that is none, or that is
/// missing, reads as nothing.
pub proof fn text_member_is_read(v: JsonView, s: Seq<char>)
    ensures
        text_in(Some(JsonView::Text(s))) == Some(s),
        text_or_empty(Some(JsonView::Text(s))) == s,
        !(v is Text) ==> text_in(Some(v)) is None && text_or_empty(Some(v)).len() == 0,
        text_in(None) is None,
        text_or_empty(None).len() == 0,
{
}

} // verus!
