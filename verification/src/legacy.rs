//! Settings of the older form: one JSON document of settings and any number of
//! JSON documents of keys, turned into the settings of today.

use crate::fold::TranscriptView;
use crate::json::{Json, JsonPairs, JsonView};
use crate::json;
use crate::settings::{
    AppSettings, AppearanceMode, CustomModel, CustomProvider, EnterBehavior, KeysView, ModelView,
    ProviderView, SettingsView,
};
use crate::settings;
use crate::text;
use vstd::prelude::*;

verus! {

/// The appearance that an older text names.
pub open spec fn old_appearance(s: Option<Seq<char>>) -> AppearanceMode {
    match s {
        Some(s) => if s == "Light"@ || s == "light"@ {
            AppearanceMode::Light
        } else if s == "Dark"@ || s == "dark"@ {
            AppearanceMode::Dark
        } else {
            AppearanceMode::System
        },
        None => AppearanceMode::System,
    }
}

/// The use of the enter key that an older text names.
pub open spec fn old_enter(s: Option<Seq<char>>) -> EnterBehavior {
    if s == Some("interrupt"@) || s == Some("steer"@) {
        EnterBehavior::Interrupt
    } else {
        EnterBehavior::Queue
    }
}

/// The models among items: those with an id.
pub open spec fn old_models(items: Seq<JsonView>) -> Seq<ModelView>
    decreases items.len(),
{
    if items.len() == 0 {
        Seq::empty()
    } else {
        let head = old_models(items.drop_last());
        let m = items.last();
        match json::text_in(m.member("id"@)) {
            Some(id) => head.push(
                ModelView {
                    id,
                    display_name: json::text_or_empty(m.member("display_name"@)),
                    context_window: json::text_or_empty(m.member("context_window"@)),
                    max_tokens: json::text_or_empty(m.member("max_tokens"@)),
                },
            ),
            None => head,
        }
    }
}

/// The items of a value that may be missing; none where it is no array.
pub open spec fn items_in(v: Option<JsonView>) -> Seq<JsonView> {
    match v {
        Some(JsonView::Array(items)) => items,
        _ => Seq::empty(),
    }
}

/// A provider from its older definition.
pub open spec fn old_provider(p: JsonView) -> ProviderView {
    ProviderView {
        id: json::text_or_empty(p.member("id"@)),
        name: json::text_or_empty(p.member("name"@)),
        base_url: json::text_or_empty(p.member("base_url"@)),
        api_key: json::text_or_empty(p.member("api_key"@)),
        protocol: settings::or_else(json::text_in(p.member("protocol"@)), "openai-completions"@),
        models: old_models(items_in(p.member("models"@))),
    }
}

/// The providers among items: those with an id.
pub open spec fn old_providers(items: Seq<JsonView>) -> Seq<ProviderView>
    decreases items.len(),
{
    if items.len() == 0 {
        Seq::empty()
    } else {
        let head = old_providers(items.drop_last());
        let p = old_provider(items.last());
        if p.id.len() > 0 {
            head.push(p)
        } else {
            head
        }
    }
}

/// The settings of an older document.
pub open spec fn old_settings(doc: JsonView) -> SettingsView {
    SettingsView {
        appearance: old_appearance(json::text_in(doc.member("appearance"@))),
        enter: old_enter(json::text_in(doc.member("enter"@))),
        transcript_view: TranscriptView::Compact,
        model: settings::or_else(json::text_in(doc.member("model"@)), "deepseek-flash"@),
        providers: old_providers(items_in(doc.member("providers"@))),
    }
}

/// The keys that stand with the providers.
pub open spec fn own_keys(providers: Seq<ProviderView>) -> KeysView
    decreases providers.len(),
{
    if providers.len() == 0 {
        Seq::empty()
    } else {
        let head = own_keys(providers.drop_last());
        let p = providers.last();
        if p.api_key.len() > 0 {
            head.push((p.id, p.api_key))
        } else {
            head
        }
    }
}

/// The keys of a document of keys: its members that are texts.
pub open spec fn listed_keys(pairs: JsonPairs) -> KeysView
    decreases pairs.len(),
{
    if pairs.len() == 0 {
        Seq::empty()
    } else {
        let head = listed_keys(pairs.drop_last());
        match pairs.last().1 {
            JsonView::Text(key) => head.push((pairs.last().0, key)),
            _ => head,
        }
    }
}

/// The keys of a document of keys, where it is an object.
pub open spec fn document_keys(doc: Option<JsonView>) -> KeysView {
    match doc {
        Some(JsonView::Object(pairs)) => listed_keys(pairs),
        _ => Seq::empty(),
    }
}

/// The keys of documents of keys, one after the other.
pub open spec fn all_document_keys(docs: Seq<Option<JsonView>>) -> KeysView
    decreases docs.len(),
{
    if docs.len() == 0 {
        Seq::empty()
    } else {
        all_document_keys(docs.drop_last()) + document_keys(docs.last())
    }
}

/// Whether a key is kept under a name.
pub open spec fn has_key(keys: KeysView, name: Seq<char>) -> bool {
    exists|i: int| 0 <= i < keys.len() && (#[trigger] keys[i]).0 == name
}

/// The provider at `i` with the key that is kept for it. Of providers with the
/// same id only the first gets one.
pub open spec fn keyed(providers: Seq<ProviderView>, keys: KeysView, i: int) -> ProviderView {
    let p = providers[i];
    if p.id != "deepseek"@ && has_key(keys, p.id) && settings::provider_at(providers, p.id, 0)
        == Some(i) {
        ProviderView { api_key: settings::key_at(keys, p.id), ..p }
    } else {
        p
    }
}

/// The providers with the keys that are kept for them.
pub open spec fn all_keyed(providers: Seq<ProviderView>, keys: KeysView) -> Seq<ProviderView> {
    Seq::new(providers.len(), |i: int| keyed(providers, keys, i))
}

/// The settings of an older document and the key of the built-in provider. A
/// key that comes later goes before an earlier one.
pub open spec fn migrated(doc: JsonView, key_docs: Seq<Option<JsonView>>) -> (
    SettingsView,
    Seq<char>,
) {
    let s = old_settings(doc);
    let keys = own_keys(s.providers) + all_document_keys(key_docs);
    (
        SettingsView { providers: all_keyed(s.providers, keys), ..s },
        settings::key_at(keys, "deepseek"@),
    )
}

fn read_text(v: Option<&Json>) -> (r: Option<String>)
    ensures
        r.deep_view() == json::text_in(v.deep_view()),
{
    match v {
        Some(v) => match v.as_text() {
            Some(s) => Some(s.clone()),
            None => None,
        },
        None => None,
    }
}

fn borrow_items<'a>(v: Option<&'a Json>) -> (r: Option<&'a Vec<Json>>)
    ensures
        match r {
            Some(items) => json::items_view(items@) == items_in(v.deep_view()),
            None => items_in(v.deep_view()) == Seq::<JsonView>::empty(),
        },
{
    match v {
        Some(v) => match v {
            Json::Array(items) => {
                proof {
                    json::lemma_array_view(*items);
                }
                Some(items)
            },
            Json::Object(pairs) => {
                proof {
                    json::lemma_object_view(*pairs);
                }
                None
            },
            _ => None,
        },
        None => None,
    }
}

fn read_models(items: &Vec<Json>) -> (r: Vec<CustomModel>)
    ensures
        r.deep_view() == old_models(json::items_view(items@)),
{
    let ghost view = json::items_view(items@);
    let mut out: Vec<CustomModel> = Vec::new();
    let mut i: usize = 0;
    assert(out.deep_view() =~= old_models(view.take(0)));
    while i < items.len()
        invariant
            i <= items@.len(),
            view == json::items_view(items@),
            out.deep_view() == old_models(view.take(i as int)),
        decreases items@.len() - i,
    {
        assert(view.take(i + 1).drop_last() =~= view.take(i as int));
        assert(view.take(i + 1).last() == items@[i as int].deep_view());
        let m: &Json = &items[i];
        if let Some(id) = read_text(m.get("id")) {
            let ghost before = out.deep_view();
            let model = CustomModel {
                id,
                display_name: json::text_or_default(m.get("display_name")),
                context_window: json::text_or_default(m.get("context_window")),
                max_tokens: json::text_or_default(m.get("max_tokens")),
            };
            out.push(model);
            assert(out.deep_view() =~= before.push(model.deep_view()));
        }
        i += 1;
    }
    assert(view.take(i as int) =~= view);
    out
}

fn read_provider(p: &Json) -> (r: CustomProvider)
    ensures
        r.deep_view() == old_provider(p.deep_view()),
{
    let models = match borrow_items(p.get("models")) {
        Some(items) => read_models(items),
        None => {
            let none: Vec<CustomModel> = Vec::new();
            assert(none.deep_view() =~= Seq::empty());
            none
        },
    };
    let protocol = match read_text(p.get("protocol")) {
        Some(s) => s,
        None => "openai-completions".to_string(),
    };
    CustomProvider {
        id: json::text_or_default(p.get("id")),
        name: json::text_or_default(p.get("name")),
        base_url: json::text_or_default(p.get("base_url")),
        api_key: json::text_or_default(p.get("api_key")),
        protocol,
        models,
    }
}

fn read_providers(items: &Vec<Json>) -> (r: Vec<CustomProvider>)
    ensures
        r.deep_view() == old_providers(json::items_view(items@)),
{
    let ghost view = json::items_view(items@);
    let mut out: Vec<CustomProvider> = Vec::new();
    let mut i: usize = 0;
    assert(out.deep_view() =~= old_providers(view.take(0)));
    while i < items.len()
        invariant
            i <= items@.len(),
            view == json::items_view(items@),
            out.deep_view() == old_providers(view.take(i as int)),
        decreases items@.len() - i,
    {
        assert(view.take(i + 1).drop_last() =~= view.take(i as int));
        assert(view.take(i + 1).last() == items@[i as int].deep_view());
        let p = read_provider(&items[i]);
        if text::char_count(p.id.as_str()) > 0 {
            let ghost before = out.deep_view();
            out.push(p);
            assert(out.deep_view() =~= before.push(p.deep_view()));
        }
        i += 1;
    }
    assert(view.take(i as int) =~= view);
    out
}

fn read_settings(doc: &Json) -> (r: AppSettings)
    ensures
        r.deep_view() == old_settings(doc.deep_view()),
{
    let mut s: AppSettings = AppSettings::default();
    if let Some(a) = read_text(doc.get("appearance")) {
        s.appearance = if text::same(a.as_str(), "Light") || text::same(a.as_str(), "light") {
            AppearanceMode::Light
        } else if text::same(a.as_str(), "Dark") || text::same(a.as_str(), "dark") {
            AppearanceMode::Dark
        } else {
            AppearanceMode::System
        };
    }
    if let Some(e) = read_text(doc.get("enter")) {
        s.enter = if text::same(e.as_str(), "interrupt") || text::same(e.as_str(), "steer") {
            EnterBehavior::Interrupt
        } else {
            EnterBehavior::Queue
        };
    }
    if let Some(m) = read_text(doc.get("model")) {
        s.model = m;
    }
    if let Some(items) = borrow_items(doc.get("providers")) {
        s.providers = read_providers(items);
    }
    s
}

fn collect_own_keys(providers: &Vec<CustomProvider>) -> (r: Vec<(String, String)>)
    ensures
        r.deep_view() == own_keys(providers.deep_view()),
{
    let ghost view = providers.deep_view();
    let mut out: Vec<(String, String)> = Vec::new();
    let mut i: usize = 0;
    assert(out.deep_view() =~= own_keys(view.take(0)));
    while i < providers.len()
        invariant
            i <= providers@.len(),
            view == providers.deep_view(),
            out.deep_view() == own_keys(view.take(i as int)),
        decreases providers@.len() - i,
    {
        assert(view.take(i + 1).drop_last() =~= view.take(i as int));
        assert(view.take(i + 1).last() == providers@[i as int].deep_view());
        let p: &CustomProvider = &providers[i];
        if text::char_count(p.api_key.as_str()) > 0 {
            let ghost before = out.deep_view();
            out.push((p.id.clone(), p.api_key.clone()));
            assert(out.deep_view() =~= before.push((p.id@, p.api_key@)));
        }
        i += 1;
    }
    assert(view.take(i as int) =~= view);
    out
}

fn add_document_keys(keys: &mut Vec<(String, String)>, doc: &Option<Json>)
    ensures
        final(keys).deep_view() == old(keys).deep_view() + document_keys(doc.deep_view()),
{
    let ghost start = keys.deep_view();
    match doc {
        Some(d) => match d {
            Json::Object(pairs) => {
                proof {
                    json::lemma_object_view(*pairs);
                }
                let ghost view = json::pairs_view(pairs@);
                let mut i: usize = 0;
                assert(start + listed_keys(view.take(0)) =~= start);
                while i < pairs.len()
                    invariant
                        i <= pairs@.len(),
                        view == json::pairs_view(pairs@),
                        keys.deep_view() == start + listed_keys(view.take(i as int)),
                    decreases pairs@.len() - i,
                {
                    assert(view.take(i + 1).drop_last() =~= view.take(i as int));
                    assert(view.take(i + 1).last() == (
                        pairs@[i as int].0@,
                        pairs@[i as int].1.deep_view(),
                    ));
                    if let Some(key) = pairs[i].1.as_text() {
                        let ghost before = keys.deep_view();
                        keys.push((pairs[i].0.clone(), key.clone()));
                        assert(keys.deep_view() =~= before.push((pairs@[i as int].0@, key@)));
                        assert(keys.deep_view() =~= start + listed_keys(view.take(i + 1)));
                    }
                    i += 1;
                }
                assert(view.take(i as int) =~= view);
            },
            Json::Array(items) => {
                proof {
                    json::lemma_array_view(*items);
                    assert(start + Seq::empty() =~= start);
                }
            },
            _ => {
                assert(start + Seq::empty() =~= start);
            },
        },
        None => {
            assert(start + Seq::empty() =~= start);
        },
    }
}

fn holds_key(keys: &Vec<(String, String)>, name: &str) -> (r: bool)
    ensures
        r == has_key(keys.deep_view(), name@),
{
    let ghost view = keys.deep_view();
    let mut i: usize = 0;
    while i < keys.len()
        invariant
            i <= keys@.len(),
            view == keys.deep_view(),
            forall|j: int| 0 <= j < i ==> (#[trigger] view[j]).0 != name@,
        decreases keys@.len() - i,
    {
        assert(view[i as int] == (keys@[i as int].0@, keys@[i as int].1@));
        if text::same(keys[i].0.as_str(), name) {
            assert(view[i as int].0 == name@);
            return true;
        }
        i += 1;
    }
    false
}

fn key_providers(providers: Vec<CustomProvider>, keys: &Vec<(String, String)>) -> (r: Vec<
    CustomProvider,
>)
    ensures
        r.deep_view() == all_keyed(providers.deep_view(), keys.deep_view()),
{
    let ghost view = providers.deep_view();
    let ghost kept = keys.deep_view();
    let mut r = providers;
    let mut i: usize = 0;
    while i < r.len()
        invariant
            i <= r@.len(),
            r@.len() == view.len(),
            view == providers.deep_view(),
            kept == keys.deep_view(),
            forall|j: int|
                0 <= j < i ==> #[trigger] r@[j].deep_view() == keyed(view, kept, j),
            forall|j: int| i <= j < view.len() ==> #[trigger] r@[j].deep_view() == view[j],
            forall|j: int| 0 <= j < view.len() ==> #[trigger] r@[j].deep_view().id == view[j].id,
        decreases r@.len() - i,
    {
        assert(r@[i as int].deep_view() == view[i as int]);
        let first = settings::find_provider(&r, r[i].id.as_str());
        proof {
            assert forall|j: int| 0 <= j < view.len() implies (#[trigger] r.deep_view()[j]).id
                == view[j].id by {
                assert(r@[j].deep_view().id == view[j].id);
            }
            lemma_same_place(r.deep_view(), view, view[i as int].id, 0);
        }
        let is_first = match first {
            Some(k) => k == i,
            None => false,
        };
        if is_first && !text::same(r[i].id.as_str(), "deepseek") && holds_key(
            keys,
            r[i].id.as_str(),
        ) {
            let key = settings::find_key(keys, r[i].id.as_str());
            r[i].api_key = key;
        }
        assert(r@[i as int].deep_view() == keyed(view, kept, i as int));
        i += 1;
    }
    assert(r.deep_view() =~= all_keyed(view, kept));
    r
}

proof fn lemma_same_place(a: Seq<ProviderView>, b: Seq<ProviderView>, id: Seq<char>, from: int)
    requires
        0 <= from,
        a.len() == b.len(),
        forall|i: int| 0 <= i < a.len() ==> (#[trigger] a[i]).id == b[i].id,
    ensures
        settings::provider_at(a, id, from) == settings::provider_at(b, id, from),
    decreases a.len() - from,
{
    if from < a.len() {
        assert(a[from].id == b[from].id);
        lemma_same_place(a, b, id, from + 1);
    }
}

/// The settings of an older document that was read, and the key of the
/// built-in provider.
pub fn migrate(doc: &Json, key_docs: &Vec<Option<Json>>) -> (r: (AppSettings, String))
    ensures
        r.0.deep_view() == migrated(doc.deep_view(), key_docs.deep_view()).0,
        r.1@ == migrated(doc.deep_view(), key_docs.deep_view()).1,
{
    let mut s = read_settings(doc);
    let mut keys = collect_own_keys(&s.providers);
    let ghost own = keys.deep_view();
    let ghost docs = key_docs.deep_view();
    let mut i: usize = 0;
    assert(own + all_document_keys(docs.take(0)) =~= own);
    while i < key_docs.len()
        invariant
            i <= key_docs@.len(),
            docs == key_docs.deep_view(),
            keys.deep_view() == own + all_document_keys(docs.take(i as int)),
        decreases key_docs@.len() - i,
    {
        assert(docs.take(i + 1).drop_last() =~= docs.take(i as int));
        assert(docs.take(i + 1).last() == key_docs@[i as int].deep_view());
        let ghost before = keys.deep_view();
        add_document_keys(&mut keys, &key_docs[i]);
        assert(keys.deep_view() =~= own + all_document_keys(docs.take(i + 1)));
        i += 1;
    }
    assert(docs.take(i as int) =~= docs);
    let deepseek = settings::find_key(&keys, "deepseek");
    let mut list: Vec<CustomProvider> = Vec::new();
    std::mem::swap(&mut s.providers, &mut list);
    s.providers = key_providers(list, &keys);
    (s, deepseek)
}

/// What an older document of settings and documents of keys are read as.
pub open spec fn read_all(raws: Seq<Seq<char>>) -> Seq<Option<JsonView>> {
    raws.map_values(|s: Seq<char>| json::parsed_json(s))
}

/// The settings of the older documents as they stand on disk, and the key of
/// the built-in provider; nothing where the settings do not read.
pub fn migrate_legacy(raw: &str, raw_keys: &Vec<String>) -> (r: Option<(AppSettings, String)>)
    ensures
        match json::parsed_json(raw@) {
            Some(doc) => r matches Some((s, key)) && s.deep_view() == migrated(
                doc,
                read_all(raw_keys.deep_view()),
            ).0 && key@ == migrated(doc, read_all(raw_keys.deep_view())).1,
            None => r is None,
        },
{
    let doc = match json::parse_json(raw) {
        Some(d) => d,
        None => return None,
    };
    let ghost all = read_all(raw_keys.deep_view());
    let mut docs: Vec<Option<Json>> = Vec::new();
    let mut i: usize = 0;
    assert(docs.deep_view() =~= all.take(0));
    while i < raw_keys.len()
        invariant
            i <= raw_keys@.len(),
            all == read_all(raw_keys.deep_view()),
            docs.deep_view() == all.take(i as int),
        decreases raw_keys@.len() - i,
    {
        let ghost before = docs.deep_view();
        let d = json::parse_json(raw_keys[i].as_str());
        docs.push(d);
        assert(docs.deep_view() =~= before.push(d.deep_view()));
        assert(raw_keys.deep_view()[i as int] == raw_keys@[i as int]@);
        assert(all.take(i + 1) =~= all.take(i as int).push(all[i as int]));
        i += 1;
    }
    assert(all.take(i as int) =~= all);
    Some(migrate(&doc, &docs))
}

// ---------------------------------------------------------------------------
// laws of reading older documents
// ---------------------------------------------------------------------------

/// The older names of the choices are read in either spelling; what is not
/// known leaves the choice as it is by default.
pub proof fn older_choices_are_read(s: Option<Seq<char>>)
    ensures
        old_appearance(s) is Light <==> s == Some("Light"@) || s == Some("light"@),
        old_appearance(s) is Dark <==> s == Some("Dark"@) || s == Some("dark"@),
        old_enter(s) is Interrupt <==> s == Some("interrupt"@) || s == Some("steer"@),
{
    reveal_strlit("Light");
    reveal_strlit("light");
    reveal_strlit("Dark");
    reveal_strlit("dark");
    assert("Light"@.len() == 5 && "light"@.len() == 5 && "Dark"@.len() == 4 && "dark"@.len() == 4);
}

/// An older provider is read from the members of its object.
pub proof fn older_provider_is_read(p: JsonView, s: Seq<char>)
    ensures
        p.member("id"@) == Some(JsonView::Text(s)) ==> old_provider(p).id == s,
        p.member("name"@) == Some(JsonView::Text(s)) ==> old_provider(p).name == s,
        p.member("base_url"@) == Some(JsonView::Text(s)) ==> old_provider(p).base_url == s,
        p.member("api_key"@) == Some(JsonView::Text(s)) ==> old_provider(p).api_key == s,
        p.member("protocol"@) == Some(JsonView::Text(s)) ==> old_provider(p).protocol == s,
        p.member("protocol"@) is None ==> old_provider(p).protocol == "openai-completions"@,
        p.member("models"@) matches Some(JsonView::Array(items)) ==> old_provider(p).models
            == old_models(items),
        p.member("models"@) is None ==> old_provider(p).models.len() == 0,
{
}

/// Of the models of an older provider those with an id are read, one by one and
/// in order.
pub proof fn older_models_are_read_one_by_one(items: Seq<JsonView>, m: JsonView, s: Seq<char>)
    ensures
        old_models(Seq::empty()).len() == 0,
        m.member("id"@) == Some(JsonView::Text(s)) ==> ({
            let all = old_models(items.push(m));
            &&& all.len() == old_models(items).len() + 1
            &&& all.drop_last() == old_models(items)
            &&& all.last().id == s
            &&& m.member("display_name"@) matches Some(JsonView::Text(t)) ==> all.last().display_name
                == t
            &&& m.member("display_name"@) is None ==> all.last().display_name.len() == 0
            &&& m.member("context_window"@) matches Some(JsonView::Text(t))
                ==> all.last().context_window == t
            &&& m.member("max_tokens"@) matches Some(JsonView::Text(t)) ==> all.last().max_tokens == t
        }),
        m.member("id"@) is None ==> old_models(items.push(m)) == old_models(items),
{
    assert(items.push(m).drop_last() =~= items);
    assert(m.member("id"@) == Some(JsonView::Text(s)) ==> old_models(items.push(m)).drop_last()
        =~= old_models(items));
}

/// Of the older providers those with an id are read, one by one and in order.
pub proof fn older_providers_are_read_one_by_one(items: Seq<JsonView>, p: JsonView)
    ensures
        old_providers(Seq::empty()).len() == 0,
        json::text_or_empty(p.member("id"@)).len() > 0 ==> old_providers(items.push(p))
            == old_providers(items).push(old_provider(p)),
        json::text_or_empty(p.member("id"@)).len() == 0 ==> old_providers(items.push(p))
            == old_providers(items),
{
    assert(items.push(p).drop_last() =~= items);
}

/// The older settings are read from the members of their document.
pub proof fn older_settings_are_read(doc: JsonView, s: Seq<char>)
    ensures
        doc.member("model"@) == Some(JsonView::Text(s)) ==> old_settings(doc).model == s,
        doc.member("model"@) is None ==> old_settings(doc).model == "deepseek-flash"@,
        doc.member("appearance"@) == Some(JsonView::Text(s)) ==> old_settings(doc).appearance
            == old_appearance(Some(s)),
        doc.member("appearance"@) is None ==> old_settings(doc).appearance is System,
        doc.member("enter"@) == Some(JsonView::Text(s)) ==> old_settings(doc).enter == old_enter(
            Some(s),
        ),
        doc.member("enter"@) is None ==> old_settings(doc).enter is Queue,
        doc.member("providers"@) matches Some(JsonView::Array(items)) ==> old_settings(doc).providers
            == old_providers(items),
        doc.member("providers"@) is None ==> old_settings(doc).providers.len() == 0,
        old_settings(doc).transcript_view is Compact,
{
}

/// Taking the keys over changes nothing of the providers but their keys, and
/// nothing of the other settings.
pub proof fn migration_changes_keys_only(doc: JsonView, docs: Seq<Option<JsonView>>, i: int)
    requires
        0 <= i < old_settings(doc).providers.len(),
    ensures
        ({
            let before = old_settings(doc);
            let after = migrated(doc, docs).0;
            &&& after.providers.len() == before.providers.len()
            &&& after.providers[i].id == before.providers[i].id
            &&& after.providers[i].name == before.providers[i].name
            &&& after.providers[i].base_url == before.providers[i].base_url
            &&& after.providers[i].protocol == before.providers[i].protocol
            &&& after.providers[i].models == before.providers[i].models
            &&& after.model == before.model
            &&& after.appearance == before.appearance
            &&& after.enter == before.enter
            &&& after.transcript_view == before.transcript_view
            &&& before.providers[i].id == "deepseek"@ ==> after.providers[i] == before.providers[i]
        }),
{
}

/// A key that a document names last is the key of its provider, whatever stood
/// in the settings or in the documents before.
pub proof fn last_document_gives_the_key(
    doc: JsonView,
    docs: Seq<Option<JsonView>>,
    pairs: JsonPairs,
    id: Seq<char>,
    key: Seq<char>,
    i: int,
)
    ensures
        ({
            let last = Some(JsonView::Object(pairs.push((id, JsonView::Text(key)))));
            let r = migrated(doc, docs.push(last));
            let p = old_settings(doc).providers;
            &&& id == "deepseek"@ ==> r.1 == key
            &&& id != "deepseek"@ && settings::provider_at(p, id, 0) == Some(i) ==> 0 <= i < p.len()
                && r.0.providers[i].api_key == key
        }),
{
    let more = pairs.push((id, JsonView::Text(key)));
    let last = Some(JsonView::Object(more));
    let p = old_settings(doc).providers;
    let all = docs.push(last);
    assert(all.drop_last() =~= docs);
    assert(more.drop_last() =~= pairs);
    let keys = own_keys(p) + all_document_keys(all);
    assert(document_keys(last) == listed_keys(pairs).push((id, key)));
    assert(keys.last() == (id, key));
    assert(keys[keys.len() - 1].0 == id);
    settings::provider_is_found_by_its_id(p, id, 0);
}

/// A document that names no key, or does not read, gives none.
pub proof fn other_documents_give_no_key(
    doc: JsonView,
    docs: Seq<Option<JsonView>>,
    other: Option<JsonView>,
)
    requires
        other matches Some(JsonView::Object(pairs)) ==> forall|i: int|
            0 <= i < pairs.len() ==> !((#[trigger] pairs[i]).1 is Text),
    ensures
        migrated(doc, docs.push(other)) == migrated(doc, docs),
{
    assert(docs.push(other).drop_last() =~= docs);
    if let Some(JsonView::Object(pairs)) = other {
        lemma_no_keys(pairs);
    }
    assert(document_keys(other).len() == 0);
    assert(all_document_keys(docs.push(other)) =~= all_document_keys(docs));
}

proof fn lemma_no_keys(pairs: JsonPairs)
    requires
        forall|i: int| 0 <= i < pairs.len() ==> !((#[trigger] pairs[i]).1 is Text),
    ensures
        listed_keys(pairs).len() == 0,
    decreases pairs.len(),
{
    if pairs.len() > 0 {
        let head = pairs.drop_last();
        assert forall|i: int| 0 <= i < head.len() implies !((#[trigger] head[i]).1 is Text) by {
            assert(head[i] == pairs[i]);
        }
        assert(!(pairs[pairs.len() - 1].1 is Text));
        lemma_no_keys(head);
    }
}

/// Without any document of keys every provider keeps the key of its own.
pub proof fn own_keys_are_kept(doc: JsonView, i: int)
    requires
        0 <= i < old_settings(doc).providers.len(),
        forall|j: int, k: int|
            0 <= j < k < old_settings(doc).providers.len() ==> (#[trigger] old_settings(
                doc,
            ).providers[j]).id != (#[trigger] old_settings(doc).providers[k]).id,
    ensures
        migrated(doc, Seq::empty()).0.providers[i] == old_settings(doc).providers[i],
{
    let p = old_settings(doc).providers;
    let keys = own_keys(p) + all_document_keys(Seq::empty());
    assert(keys =~= own_keys(p));
    if has_key(keys, p[i].id) {
        lemma_own_key(p, i);
    }
}

proof fn lemma_own_key(p: Seq<ProviderView>, i: int)
    requires
        0 <= i < p.len(),
        forall|j: int, k: int|
            0 <= j < k < p.len() ==> (#[trigger] p[j]).id != (#[trigger] p[k]).id,
    ensures
        settings::key_at(own_keys(p), p[i].id) == p[i].api_key,
    decreases p.len(),
{
    let head = p.drop_last();
    let rest = own_keys(head);
    if i < head.len() {
        lemma_own_key(head, i);
        assert(p[i].id != p[p.len() - 1].id);
        assert(own_keys(p).len() > rest.len() ==> own_keys(p).drop_last() =~= rest);
    } else {
        lemma_no_own_key(head, p[i].id);
        assert(own_keys(p).len() > rest.len() ==> own_keys(p).drop_last() =~= rest);
        if p[i].api_key.len() == 0 {
            assert(p[i].api_key =~= Seq::empty());
        }
    }
}

proof fn lemma_no_own_key(p: Seq<ProviderView>, id: Seq<char>)
    requires
        forall|j: int| 0 <= j < p.len() ==> (#[trigger] p[j]).id != id,
    ensures
        settings::key_at(own_keys(p), id) == Seq::<char>::empty(),
    decreases p.len(),
{
    if p.len() > 0 {
        let head = p.drop_last();
        assert forall|j: int| 0 <= j < head.len() implies (#[trigger] head[j]).id != id by {
            assert(head[j] == p[j]);
        }
        lemma_no_own_key(head, id);
        assert(p[p.len() - 1].id != id);
        assert(own_keys(p).len() > own_keys(head).len() ==> own_keys(p).drop_last() =~= own_keys(
            head,
        ));
    }
}

} // verus!
