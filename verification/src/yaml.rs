//! Trees of YAML values.

use crate::text;
use serde_yaml::value::TaggedValue;
use serde_yaml::Value;
use vstd::prelude::*;

verus! {

/// The value type of `serde_yaml`, carried through where a value is a number
/// other than an unsigned integer.
#[verifier::external_type_specification]
#[verifier::external_body]
pub struct ExYamlValue(serde_yaml::Value);

/// The tag type of `serde_yaml`, carried through.
#[verifier::external_type_specification]
#[verifier::external_body]
pub struct ExYamlTag(serde_yaml::value::Tag);

/// A YAML value.
pub enum Yaml {
    Null,
    Bool(bool),
    Text(String),
    Unsigned(u64),
    Sequence(Vec<Yaml>),
    Mapping(Vec<(Yaml, Yaml)>),
    /// A value under a tag; the list holds that value alone.
    Tagged(serde_yaml::value::Tag, Vec<Yaml>),
    /// Another number.
    Other(serde_yaml::Value),
}

/// The contents of a YAML value.
#[verifier::ext_equal]
pub enum YamlView {
    Null,
    Bool(bool),
    Text(Seq<char>),
    Unsigned(u64),
    Sequence(Seq<YamlView>),
    Mapping(Seq<(YamlView, YamlView)>),
    Tagged(serde_yaml::value::Tag, Seq<YamlView>),
    Other(serde_yaml::Value),
}

/// The pairs of a mapping.
pub type YamlPairs = Seq<(YamlView, YamlView)>;

impl DeepView for Yaml {
    type V = YamlView;

    open spec fn deep_view(&self) -> YamlView
        decreases self,
    {
        match self {
            Yaml::Null => YamlView::Null,
            Yaml::Bool(b) => YamlView::Bool(*b),
            Yaml::Text(s) => YamlView::Text(s@),
            Yaml::Unsigned(n) => YamlView::Unsigned(*n),
            Yaml::Sequence(v) => YamlView::Sequence(
                Seq::new(
                    v@.len(),
                    |i: int|
                        if 0 <= i < v@.len() {
                            v@[i].deep_view()
                        } else {
                            YamlView::Unsigned(0)
                        },
                ),
            ),
            Yaml::Mapping(v) => YamlView::Mapping(
                Seq::new(
                    v@.len(),
                    |i: int|
                        if 0 <= i < v@.len() {
                            (v@[i].0.deep_view(), v@[i].1.deep_view())
                        } else {
                            (YamlView::Unsigned(0), YamlView::Unsigned(0))
                        },
                ),
            ),
            Yaml::Tagged(tag, v) => YamlView::Tagged(
                *tag,
                Seq::new(
                    v@.len(),
                    |i: int|
                        if 0 <= i < v@.len() {
                            v@[i].deep_view()
                        } else {
                            YamlView::Unsigned(0)
                        },
                ),
            ),
            Yaml::Other(v) => YamlView::Other(*v),
        }
    }
}

/// What the pairs of a mapping hold.
pub open spec fn pairs_view(v: Seq<(Yaml, Yaml)>) -> YamlPairs {
    Seq::new(v.len(), |i: int| (v[i].0.deep_view(), v[i].1.deep_view()))
}

/// What the items of a sequence hold.
pub open spec fn items_view(v: Seq<Yaml>) -> Seq<YamlView> {
    Seq::new(v.len(), |i: int| v[i].deep_view())
}

pub proof fn lemma_mapping_view(v: Vec<(Yaml, Yaml)>)
    ensures
        Yaml::Mapping(v).deep_view() == YamlView::Mapping(pairs_view(v@)),
{
    reveal_with_fuel(<Yaml as DeepView>::deep_view, 2);
    let got = Yaml::Mapping(v).deep_view()->Mapping_0;
    assert(got.len() == v@.len());
    assert forall|i: int| 0 <= i < v@.len() implies got[i] == pairs_view(v@)[i] by {
        assert(got[i].0 == v@[i].0.deep_view());
        assert(got[i].1 == v@[i].1.deep_view());
    }
    assert(got =~= pairs_view(v@));
}

pub proof fn lemma_sequence_view(v: Vec<Yaml>)
    ensures
        Yaml::Sequence(v).deep_view() == YamlView::Sequence(items_view(v@)),
{
    reveal_with_fuel(<Yaml as DeepView>::deep_view, 2);
    let got = Yaml::Sequence(v).deep_view()->Sequence_0;
    assert(got.len() == v@.len());
    assert forall|i: int| 0 <= i < v@.len() implies got[i] == items_view(v@)[i] by {
        assert(got[i] == v@[i].deep_view());
    }
    assert(got =~= items_view(v@));
}

pub proof fn lemma_tagged_view(tag: serde_yaml::value::Tag, v: Vec<Yaml>)
    ensures
        Yaml::Tagged(tag, v).deep_view() == YamlView::Tagged(tag, items_view(v@)),
{
    reveal_with_fuel(<Yaml as DeepView>::deep_view, 2);
    let got = Yaml::Tagged(tag, v).deep_view()->Tagged_1;
    assert(got.len() == v@.len());
    assert forall|i: int| 0 <= i < v@.len() implies got[i] == items_view(v@)[i] by {
        assert(got[i] == v@[i].deep_view());
    }
    assert(got =~= items_view(v@));
}

/// A value without its tags.
pub open spec fn untagged(v: YamlView) -> YamlView
    decreases v,
{
    match v {
        YamlView::Tagged(_, inner) => if inner.len() == 1 {
            untagged(inner[0])
        } else {
            v
        },
        _ => v,
    }
}

/// The position of a text among the keys from `at` on.
pub open spec fn key_from(pairs: YamlPairs, key: Seq<char>, at: int) -> Option<int>
    decreases pairs.len() - at,
{
    if at < 0 || at >= pairs.len() {
        None
    } else if pairs[at].0 == YamlView::Text(key) {
        Some(at)
    } else {
        key_from(pairs, key, at + 1)
    }
}

/// The value that pairs hold under a text.
pub open spec fn pair_value(pairs: YamlPairs, key: Seq<char>) -> Option<YamlView> {
    match key_from(pairs, key, 0) {
        Some(i) => Some(pairs[i].1),
        None => None,
    }
}

/// The pairs with a value under a text: in place of what stood there, or at the
/// end.
pub open spec fn with_pair(pairs: YamlPairs, key: Seq<char>, value: YamlView) -> YamlPairs {
    match key_from(pairs, key, 0) {
        Some(i) => pairs.update(i, (pairs[i].0, value)),
        None => pairs.push((YamlView::Text(key), value)),
    }
}

/// The member of a mapping under a text.
pub open spec fn member(v: YamlView, key: Seq<char>) -> Option<YamlView> {
    match untagged(v) {
        YamlView::Mapping(pairs) => pair_value(pairs, key),
        _ => None,
    }
}

/// The member of a value that may be missing.
pub open spec fn member_of(v: Option<YamlView>, key: Seq<char>) -> Option<YamlView> {
    match v {
        Some(v) => member(v, key),
        None => None,
    }
}

/// The text of a value.
pub open spec fn text_of(v: YamlView) -> Option<Seq<char>> {
    match untagged(v) {
        YamlView::Text(s) => Some(s),
        _ => None,
    }
}

/// The text of a value that may be missing.
pub open spec fn text_in(v: Option<YamlView>) -> Option<Seq<char>> {
    match v {
        Some(v) => text_of(v),
        None => None,
    }
}

/// The unsigned integer of a value that may be missing.
pub open spec fn number_in(v: Option<YamlView>) -> Option<u64> {
    match v {
        Some(v) => match untagged(v) {
            YamlView::Unsigned(n) => Some(n),
            _ => None,
        },
        None => None,
    }
}

/// The pairs of a value that may be missing; none where it is no mapping.
pub open spec fn pairs_in(v: Option<YamlView>) -> YamlPairs {
    match v {
        Some(v) => match untagged(v) {
            YamlView::Mapping(pairs) => pairs,
            _ => Seq::empty(),
        },
        None => Seq::empty(),
    }
}

/// The items of a value that may be missing; none where it is no sequence.
pub open spec fn items_in(v: Option<YamlView>) -> Seq<YamlView> {
    match v {
        Some(v) => match untagged(v) {
            YamlView::Sequence(items) => items,
            _ => Seq::empty(),
        },
        None => Seq::empty(),
    }
}

/// Where a text stands among the keys, it is found.
pub proof fn lemma_key_place(pairs: YamlPairs, key: Seq<char>, at: int)
    requires
        0 <= at,
    ensures
        key_from(pairs, key, at) matches Some(i) ==> at <= i < pairs.len() && pairs[i].0
            == YamlView::Text(key),
        key_from(pairs, key, at) is None ==> forall|i: int|
            at <= i < pairs.len() ==> (#[trigger] pairs[i]).0 != YamlView::Text(key),
    decreases pairs.len() - at,
{
    if at < pairs.len() && pairs[at].0 != YamlView::Text(key) {
        lemma_key_place(pairs, key, at + 1);
    }
}

proof fn lemma_key_from_same(a: YamlPairs, b: YamlPairs, key: Seq<char>, at: int)
    requires
        0 <= at,
        a.len() == b.len(),
        forall|i: int| 0 <= i < a.len() ==> (#[trigger] a[i]).0 == b[i].0,
    ensures
        key_from(a, key, at) == key_from(b, key, at),
    decreases a.len() - at,
{
    if at < a.len() {
        assert(a[at].0 == b[at].0);
        lemma_key_from_same(a, b, key, at + 1);
    }
}

proof fn lemma_key_from_push(a: YamlPairs, p: (YamlView, YamlView), key: Seq<char>, at: int)
    requires
        0 <= at <= a.len(),
    ensures
        key_from(a.push(p), key, at) == (match key_from(a, key, at) {
            Some(i) => Some(i),
            None => if p.0 == YamlView::Text(key) {
                Some(a.len() as int)
            } else {
                None
            },
        }),
    decreases a.len() - at,
{
    if at < a.len() {
        assert(a.push(p)[at] == a[at]);
        lemma_key_from_push(a, p, key, at + 1);
    } else {
        assert(key_from(a.push(p), key, at + 1) is None);
    }
}

/// After a pair was put in, its key gives its value and every other key what
/// it gave before.
pub proof fn lemma_with_pair(pairs: YamlPairs, key: Seq<char>, value: YamlView, other: Seq<char>)
    ensures
        pair_value(with_pair(pairs, key, value), other) == (if other == key {
            Some(value)
        } else {
            pair_value(pairs, other)
        }),
{
    lemma_key_place(pairs, key, 0);
    lemma_key_place(pairs, other, 0);
    match key_from(pairs, key, 0) {
        Some(i) => {
            let next = pairs.update(i, (pairs[i].0, value));
            lemma_key_from_same(pairs, next, other, 0);
            lemma_key_from_same(pairs, next, key, 0);
        },
        None => {
            lemma_key_from_push(pairs, (YamlView::Text(key), value), other, 0);
        },
    }
}

// ---------------------------------------------------------------------------
// plain values
// ---------------------------------------------------------------------------

/// Whether a character stands within a line: it is no control character, no
/// end of a line, and no mark of byte order.
pub open spec fn within_line(c: char) -> bool {
    let n = c as int;
    &&& n >= 0x20
    &&& !(0x7f <= n <= 0x9f)
    &&& n != 0x2028
    &&& n != 0x2029
    &&& n != 0xfeff
    &&& n != 0xfffe
    &&& n != 0xffff
}

/// Whether a text is one line, and no longer than a writer can measure.
pub open spec fn plain_text(s: Seq<char>) -> bool {
    &&& s.len() <= 0x0fff_ffff
    &&& forall|i: int| 0 <= i < s.len() ==> within_line(#[trigger] s[i])
}

/// Whether no key stands twice.
pub open spec fn keys_distinct(pairs: YamlPairs) -> bool {
    forall|i: int, j: int| 0 <= i < j < pairs.len() ==> pairs[i].0 != pairs[j].0
}

/// Whether a key is a text of one line.
pub open spec fn plain_key(v: YamlView) -> bool {
    match v {
        YamlView::Text(s) => plain_text(s),
        _ => false,
    }
}

/// Whether the texts of a value are single lines and its numbers unsigned
/// integers, it has no tags, its mappings hold each key once and under a text,
/// and it is nested no deeper than `depth`.
pub open spec fn plain_yaml(v: YamlView, depth: nat) -> bool
    decreases depth,
{
    match v {
        YamlView::Null | YamlView::Bool(_) | YamlView::Unsigned(_) => true,
        YamlView::Text(s) => plain_text(s),
        YamlView::Sequence(items) => depth > 0 && forall|i: int|
            0 <= i < items.len() ==> plain_yaml(#[trigger] items[i], (depth - 1) as nat),
        YamlView::Mapping(pairs) => depth > 0 && keys_distinct(pairs) && forall|i: int|
            0 <= i < pairs.len() ==> plain_key((#[trigger] pairs[i]).0) && plain_yaml(
                pairs[i].1,
                (depth - 1) as nat,
            ),
        YamlView::Tagged(..) | YamlView::Other(_) => false,
    }
}

/// A value that is plain to some depth is plain to a greater one.
pub proof fn lemma_deeper(v: YamlView, depth: nat, more: nat)
    requires
        plain_yaml(v, depth),
        depth <= more,
    ensures
        plain_yaml(v, more),
    decreases depth,
{
    match v {
        YamlView::Sequence(items) => {
            assert forall|i: int| 0 <= i < items.len() implies plain_yaml(
                #[trigger] items[i],
                (more - 1) as nat,
            ) by {
                lemma_deeper(items[i], (depth - 1) as nat, (more - 1) as nat);
            }
        },
        YamlView::Mapping(pairs) => {
            assert forall|i: int| 0 <= i < pairs.len() implies plain_key((#[trigger] pairs[i]).0)
                && plain_yaml(pairs[i].1, (more - 1) as nat) by {
                lemma_deeper(pairs[i].1, (depth - 1) as nat, (more - 1) as nat);
            }
        },
        _ => {},
    }
}

/// A plain mapping stays plain with a plain value under a text of one line.
pub proof fn lemma_plain_with_pair(pairs: YamlPairs, key: Seq<char>, value: YamlView, depth: nat)
    requires
        depth > 0,
        plain_yaml(YamlView::Mapping(pairs), depth),
        plain_text(key),
        plain_yaml(value, (depth - 1) as nat),
    ensures
        plain_yaml(YamlView::Mapping(with_pair(pairs, key, value)), depth),
{
    lemma_key_place(pairs, key, 0);
    let next = with_pair(pairs, key, value);
    let low = (depth - 1) as nat;
    assert(keys_distinct(next)) by {
        assert forall|i: int, j: int| 0 <= i < j < next.len() implies next[i].0 != next[j].0 by {
            if j < pairs.len() {
                assert(next[i].0 == pairs[i].0 && next[j].0 == pairs[j].0);
            } else {
                assert(next[i].0 == pairs[i].0);
            }
        }
    }
    assert forall|i: int| 0 <= i < next.len() implies plain_key((#[trigger] next[i]).0)
        && plain_yaml(next[i].1, low) by {
        if i < pairs.len() {
            assert(plain_key(pairs[i].0) && plain_yaml(pairs[i].1, low));
        }
    }
}

/// The value under a text in a plain mapping is plain.
pub proof fn lemma_plain_value(pairs: YamlPairs, key: Seq<char>, depth: nat)
    requires
        depth > 0,
        plain_yaml(YamlView::Mapping(pairs), depth),
    ensures
        pair_value(pairs, key) matches Some(v) ==> plain_yaml(v, (depth - 1) as nat),
{
    lemma_key_place(pairs, key, 0);
}

/// The position of a text among the keys.
pub fn find_key(v: &Vec<(Yaml, Yaml)>, key: &str) -> (r: Option<usize>)
    ensures
        r matches Some(i) ==> i < v@.len(),
        key_from(pairs_view(v@), key@, 0) == (match r {
            Some(i) => Some(i as int),
            None => None,
        }),
{
    let ghost view = pairs_view(v@);
    let mut i: usize = 0;
    while i < v.len()
        invariant
            i <= v@.len(),
            view == pairs_view(v@),
            key_from(view, key@, 0) == key_from(view, key@, i as int),
        decreases v@.len() - i,
    {
        assert(view[i as int].0 == v@[i as int].0.deep_view());
        if let Yaml::Text(s) = &v[i].0 {
            if text::same(s.as_str(), key) {
                return Some(i);
            }
        }
        i = i + 1;
    }
    None
}

/// Puts a value under a text.
pub fn put(v: &mut Vec<(Yaml, Yaml)>, key: &str, value: Yaml)
    ensures
        pairs_view(final(v)@) == with_pair(pairs_view(old(v)@), key@, value.deep_view()),
{
    let ghost before = pairs_view(v@);
    match find_key(v, key) {
        Some(i) => {
            v[i].1 = value;
            assert(pairs_view(v@) =~= before.update(
                i as int,
                (before[i as int].0, value.deep_view()),
            ));
        },
        None => {
            v.push((Yaml::Text(key.to_string()), value));
            assert(pairs_view(v@) =~= before.push((YamlView::Text(key@), value.deep_view())));
        },
    }
}

impl Yaml {
    /// The value without its tags.
    pub fn untag(&self) -> (r: &Yaml)
        ensures
            r.deep_view() == untagged(self.deep_view()),
        decreases self,
    {
        match self {
            Yaml::Tagged(tag, v) => {
                proof {
                    lemma_tagged_view(*tag, *v);
                }
                if v.len() == 1 {
                    assert(decreases_to!(*self => self->Tagged_1));
                    assert(decreases_to!(self->Tagged_1 => self->Tagged_1@));
                    assert(decreases_to!(self->Tagged_1@ => self->Tagged_1@[0]));
                    v[0].untag()
                } else {
                    self
                }
            },
            _ => self,
        }
    }

    /// The pairs of a mapping; none of any other value.
    pub fn into_pairs(self) -> (r: Vec<(Yaml, Yaml)>)
        ensures
            pairs_view(r@) == pairs_in(Some(self.deep_view())),
        decreases self,
    {
        match self {
            Yaml::Mapping(pairs) => {
                proof {
                    lemma_mapping_view(pairs);
                }
                pairs
            },
            Yaml::Tagged(tag, v) => {
                proof {
                    lemma_tagged_view(tag, v);
                }
                let mut inner = v;
                if inner.len() == 1 {
                    assert(decreases_to!(self => self->Tagged_1));
                    assert(decreases_to!(self->Tagged_1 => self->Tagged_1@));
                    assert(decreases_to!(self->Tagged_1@ => self->Tagged_1@[0]));
                    let one = inner.remove(0);
                    one.into_pairs()
                } else {
                    let none: Vec<(Yaml, Yaml)> = Vec::new();
                    assert(pairs_view(none@) =~= Seq::empty());
                    none
                }
            },
            Yaml::Sequence(items) => {
                proof {
                    lemma_sequence_view(items);
                }
                let none: Vec<(Yaml, Yaml)> = Vec::new();
                assert(pairs_view(none@) =~= Seq::empty());
                none
            },
            _ => {
                let none: Vec<(Yaml, Yaml)> = Vec::new();
                assert(pairs_view(none@) =~= Seq::empty());
                none
            },
        }
    }

    /// The member of a mapping under a text.
    pub fn get(&self, key: &str) -> (r: Option<&Yaml>)
        ensures
            (match r {
                Some(v) => Some(v.deep_view()),
                None => None,
            }) == member(self.deep_view(), key@),
    {
        let v = self.untag();
        match v {
            Yaml::Mapping(pairs) => {
                proof {
                    lemma_mapping_view(*pairs);
                }
                match find_key(pairs, key) {
                    Some(i) => Some(&pairs[i].1),
                    None => None,
                }
            },
            Yaml::Sequence(items) => {
                proof {
                    lemma_sequence_view(*items);
                }
                None
            },
            Yaml::Tagged(tag, inner) => {
                proof {
                    lemma_tagged_view(*tag, *inner);
                }
                None
            },
            _ => None,
        }
    }

    /// The text of the value.
    pub fn as_text(&self) -> (r: Option<&String>)
        ensures
            (match r {
                Some(s) => Some(s@),
                None => None,
            }) == text_of(self.deep_view()),
    {
        match self.untag() {
            Yaml::Text(s) => Some(s),
            Yaml::Mapping(v) => {
                proof {
                    lemma_mapping_view(*v);
                }
                None
            },
            Yaml::Sequence(v) => {
                proof {
                    lemma_sequence_view(*v);
                }
                None
            },
            Yaml::Tagged(tag, v) => {
                proof {
                    lemma_tagged_view(*tag, *v);
                }
                None
            },
            _ => None,
        }
    }
}

/// The member of a value that may be missing.
pub fn get_in<'a>(v: Option<&'a Yaml>, key: &str) -> (r: Option<&'a Yaml>)
    ensures
        r.deep_view() == member_of(v.deep_view(), key@),
{
    match v {
        Some(v) => v.get(key),
        None => None,
    }
}

/// The text of a value that may be missing.
pub fn read_text(v: Option<&Yaml>) -> (r: Option<String>)
    ensures
        r.deep_view() == text_in(v.deep_view()),
{
    match v {
        Some(v) => match v.as_text() {
            Some(s) => Some(s.clone()),
            None => None,
        },
        None => None,
    }
}

/// The unsigned integer of a value that may be missing.
pub fn read_number(v: Option<&Yaml>) -> (r: Option<u64>)
    ensures
        r == number_in(v.deep_view()),
{
    match v {
        Some(v) => match v.untag() {
            Yaml::Unsigned(n) => Some(*n),
            Yaml::Mapping(m) => {
                proof {
                    lemma_mapping_view(*m);
                }
                None
            },
            Yaml::Sequence(m) => {
                proof {
                    lemma_sequence_view(*m);
                }
                None
            },
            Yaml::Tagged(tag, m) => {
                proof {
                    lemma_tagged_view(*tag, *m);
                }
                None
            },
            _ => None,
        },
        None => None,
    }
}

// ---------------------------------------------------------------------------
// serde_yaml
// ---------------------------------------------------------------------------

/// The tree that a text spells as YAML, or nothing where it spells none.
pub uninterp spec fn parsed_yaml(s: Seq<char>) -> Option<YamlView>;

/// The text that `serde_yaml` writes for a tree.
pub uninterp spec fn printed_yaml(v: YamlView) -> Option<Seq<char>>;

/// Whether a text was written for a value that is plain, and is read back as
/// it.
pub open spec fn reads_back(s: Option<Seq<char>>, v: YamlView) -> bool {
    plain_yaml(v, 100) ==> match s {
        Some(s) => parsed_yaml(s) == Some(v),
        None => false,
    }
}

/// Turns a `serde_yaml::Value` into the tree of the same shape.
#[verifier::external_body]
fn tree_of(v: serde_yaml::Value) -> Yaml {
    match v {
        Value::Null => Yaml::Null,
        Value::Bool(b) => Yaml::Bool(b),
        Value::Number(n) => {
            n.as_u64().map_or(Yaml::Other(Value::Number(n)), Yaml::Unsigned)
        },
        Value::String(s) => Yaml::Text(s),
        Value::Sequence(v) => Yaml::Sequence(v.into_iter().map(tree_of).collect()),
        Value::Mapping(m) => {
            Yaml::Mapping(m.into_iter().map(|(k, v)| (tree_of(k), tree_of(v))).collect())
        },
        Value::Tagged(t) => Yaml::Tagged(t.tag, vec![tree_of(t.value)]),
    }
}

/// Turns a tree into the `serde_yaml::Value` of the same shape.
#[verifier::external_body]
fn value_of(v: &Yaml) -> serde_yaml::Value {
    match v {
        Yaml::Null => Value::Null,
        Yaml::Bool(b) => Value::Bool(*b),
        Yaml::Text(s) => Value::String(s.clone()),
        Yaml::Unsigned(n) => Value::from(*n),
        Yaml::Sequence(v) => Value::Sequence(v.iter().map(value_of).collect()),
        Yaml::Mapping(v) => {
            Value::Mapping(v.iter().map(|(k, v)| (value_of(k), value_of(v))).collect())
        },
        Yaml::Tagged(t, v) => Value::Tagged(Box::new(TaggedValue {
            tag: t.clone(),
            value: v.first().map_or(Value::Null, value_of),
        })),
        Yaml::Other(v) => v.clone(),
    }
}

/// `serde_yaml::from_str` reads a text as a value; what it reads depends on
/// the text alone.
#[verifier::external_body]
pub(crate) fn parse_yaml(s: &str) -> (r: Option<Yaml>)
    ensures
        r.deep_view() == parsed_yaml(s@),
{
    serde_yaml::from_str::<serde_yaml::Value>(s).ok().map(tree_of)
}

/// `serde_yaml::to_string` writes a value; what it writes depends on the value
/// alone. On a plain value it does not fail, and `serde_yaml::from_str` reads
/// back what it wrote: texts of one line are quoted where they would be read
/// as something else, and pairs keep their order. Nothing is said of reading
/// back texts of several lines, tags, and numbers that are no unsigned
/// integers.
#[verifier::external_body]
pub(crate) fn render_yaml(v: &Yaml) -> (r: Option<String>)
    ensures
        r.deep_view() == printed_yaml(v.deep_view()),
        reads_back(r.deep_view(), v.deep_view()),
{
    serde_yaml::to_string(&value_of(v)).ok()
}

// ---------------------------------------------------------------------------
// laws of reading values
// ---------------------------------------------------------------------------

/// The first pair with the key gives the member; a mapping without it has none,
/// nor has anything that is no mapping.
pub proof fn first_pair_gives_the_member(pairs: YamlPairs, key: Seq<char>, i: int, v: YamlView)
    ensures
        0 <= i < pairs.len() && pairs[i].0 == YamlView::Text(key) && (forall|j: int|
            0 <= j < i ==> (#[trigger] pairs[j]).0 != YamlView::Text(key)) ==> member(
            YamlView::Mapping(pairs),
            key,
        ) == Some(pairs[i].1),
        (forall|j: int| 0 <= j < pairs.len() ==> (#[trigger] pairs[j]).0 != YamlView::Text(key))
            ==> member(YamlView::Mapping(pairs), key) is None,
        !(v is Mapping) && !(v is Tagged) ==> member(v, key) is None,
        member_of(None, key) is None,
        member_of(Some(v), key) == member(v, key),
{
    lemma_key_first(pairs, key, 0);
    lemma_key_place(pairs, key, 0);
}

proof fn lemma_key_first(pairs: YamlPairs, key: Seq<char>, at: int)
    requires
        0 <= at,
    ensures
        key_from(pairs, key, at) matches Some(i) ==> forall|j: int|
            at <= j < i ==> (#[trigger] pairs[j]).0 != YamlView::Text(key),
    decreases pairs.len() - at,
{
    if at < pairs.len() && pairs[at].0 != YamlView::Text(key) {
        lemma_key_first(pairs, key, at + 1);
    }
}

/// A value is read for what it is, and a value of another kind as none.
pub proof fn value_is_read_for_what_it_is(
    v: YamlView,
    s: Seq<char>,
    n: u64,
    items: Seq<YamlView>,
    pairs: YamlPairs,
)
    ensures
        text_in(Some(YamlView::Text(s))) == Some(s),
        number_in(Some(YamlView::Unsigned(n))) == Some(n),
        items_in(Some(YamlView::Sequence(items))) == items,
        pairs_in(Some(YamlView::Mapping(pairs))) == pairs,
        !(v is Tagged) && !(v is Text) ==> text_in(Some(v)) is None,
        !(v is Tagged) && !(v is Unsigned) ==> number_in(Some(v)) is None,
        !(v is Tagged) && !(v is Sequence) ==> items_in(Some(v)).len() == 0,
        !(v is Tagged) && !(v is Mapping) ==> pairs_in(Some(v)).len() == 0,
        text_in(None) is None,
        number_in(None) is None,
        items_in(None).len() == 0,
        pairs_in(None).len() == 0,
{
}

/// A tag does not change how a value is read.
pub proof fn tag_does_not_count(tag: serde_yaml::value::Tag, v: YamlView, key: Seq<char>)
    ensures
        ({
            let t = YamlView::Tagged(tag, seq![v]);
            &&& text_in(Some(t)) == text_in(Some(v))
            &&& number_in(Some(t)) == number_in(Some(v))
            &&& items_in(Some(t)) == items_in(Some(v))
            &&& pairs_in(Some(t)) == pairs_in(Some(v))
            &&& member(t, key) == member(v, key)
        }),
{
    let t = YamlView::Tagged(tag, seq![v]);
    assert(seq![v][0] == v);
    assert(untagged(t) == untagged(v));
}

} // verus!
